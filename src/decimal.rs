use crate::biguint::BigUint;
use crate::limbs::{lemma_value_upto_low_limb, limb_base};
use vstd::prelude::*;

verus! {

/// The ASCII character of a decimal digit.
pub open spec fn digit_char(d: nat) -> char {
    seq!['0', '1', '2', '3', '4', '5', '6', '7', '8', '9'][d as int]
}

/// The decimal numeral of `n`, most significant digit first, without leading
/// zeros; zero is `"0"`.
pub open spec fn decimal_spec(n: nat) -> Seq<char>
    decreases n,
{
    if n < 10 {
        seq![digit_char(n)]
    } else {
        decimal_spec(n / 10).push(digit_char(n % 10))
    }
}

/// Relies on `String::insert`: inserting at byte index 0, always a character
/// boundary, puts the character in front of the others.
#[verifier::external_body]
fn insert_front(s: &mut String, c: char)
    ensures
        final(s)@ == seq![c] + old(s)@,
{
    s.insert(0, c)
}

impl BigUint {
    /// The decimal numeral of the value: repeated division by ten, each
    /// remainder put in front as a digit.
    pub fn to_decimal_string(&self) -> (r: String)
        requires
            self.wf(),
        ensures
            r@ == decimal_spec(self@),
    {
        let digits: [char; 10] = ['0', '1', '2', '3', '4', '5', '6', '7', '8', '9'];
        assert(digits@ == seq!['0', '1', '2', '3', '4', '5', '6', '7', '8', '9']);
        let mut output = String::new();
        if self.is_zero() {
            insert_front(&mut output, '0');
            assert(output@ =~= decimal_spec(self@));
            return output;
        }
        let mut num = self.copy();
        let ten = BigUint::from(10);
        assert(decimal_spec(self@) + output@ =~= decimal_spec(self@));
        while !num.is_zero()
            invariant
                num.wf(),
                ten.wf(),
                ten@ == 10,
                digits@ == seq!['0', '1', '2', '3', '4', '5', '6', '7', '8', '9'],
                num@ == 0 ==> output@ == decimal_spec(self@),
                num@ > 0 ==> decimal_spec(self@) == decimal_spec(num@) + output@,
            decreases num@,
        {
            let (q, r) = num.divmod(&ten);
            proof {
                lemma_value_upto_low_limb(r.value@, r.value.len() as nat);
                vstd::arithmetic::div_mod::lemma_small_mod(r@, limb_base());
            }
            let d = r.get(0);
            let ghost prev = output@;
            insert_front(&mut output, digits[d as usize]);
            proof {
                let c = digit_char(num@ % 10);
                if num@ >= 10 {
                    assert(decimal_spec(num@) == decimal_spec(q@).push(c));
                    assert(decimal_spec(q@).push(c) + prev =~= decimal_spec(q@) + output@);
                } else {
                    assert(decimal_spec(num@) + prev =~= output@);
                }
            }
            num = q;
        }
        output
    }
}

} // verus!
