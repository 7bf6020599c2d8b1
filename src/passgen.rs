//! Helpers for the user interface: fitting typed key text to 32 bytes, and
//! drawing random passwords.
use vstd::prelude::*;
use vstd::utf8::*;
use vstd::string::*;
use rand::Rng;
use rand::distributions::Alphanumeric;
use crate::crypto::{KEY_LEN, normalized_key};
use crate::store::push_char;

verus! {

/// Length in characters of a generated password.
pub const GENERATED_LEN: usize = 14;

/// An ASCII letter or digit.
pub open spec fn is_ascii_alphanumeric(c: char) -> bool {
    let v = c as u32;
    (48 <= v <= 57) || (65 <= v <= 90) || (97 <= v <= 122)
}

/// Relies on sampling `rand::distributions::Alphanumeric` from `thread_rng`:
/// one of `A`-`Z`, `a`-`z`, `0`-`9`.
#[verifier::external_body]
fn random_alphanumeric() -> (c: char)
    ensures
        is_ascii_alphanumeric(c),
{
    char::from(rand::thread_rng().sample(Alphanumeric))
}

proof fn lemma_encode_concat(a: Seq<char>, b: Seq<char>)
    ensures
        encode_utf8(a + b) == encode_utf8(a) + encode_utf8(b),
    decreases a.len(),
{
    if a.len() > 0 {
        lemma_encode_concat(a.drop_first(), b);
        assert((a + b).drop_first() =~= a.drop_first() + b);
        assert((a + b)[0] == a[0]);
        assert(encode_utf8(a + b) =~= encode_utf8(a) + encode_utf8(b));
    }
}

proof fn lemma_encode_nuls(n: nat)
    ensures
        encode_utf8(Seq::new(n, |i: int| '\0')) == Seq::new(n, |i: int| 0u8),
    decreases n,
{
    if n > 0 {
        let s = Seq::new(n, |i: int| '\0');
        lemma_encode_nuls((n - 1) as nat);
        assert(s.drop_first() =~= Seq::new((n - 1) as nat, |i: int| '\0'));
        assert(('\0' as u32) == 0u32);
        assert(leading_byte_width_1(0u32) == 0u8) by (bit_vector);
        assert(encode_scalar(s[0] as u32) =~= seq![0u8]);
        assert(encode_utf8(s) =~= Seq::new(n, |i: int| 0u8));
    }
}

/// Fits key text to 32 bytes: text over 32 bytes is cut after its 32nd byte,
/// shorter text is followed by NUL characters up to 32 bytes. The result's
/// UTF-8 bytes are exactly the framed key.
pub fn adjust_password_length(password: &str) -> (r: String)
    requires
        password.spec_bytes().len() > KEY_LEN ==> is_char_boundary(password.spec_bytes(), KEY_LEN as int),
    ensures
        encode_utf8(r@) == normalized_key(password.spec_bytes()),
        password.spec_bytes().len() <= KEY_LEN ==> r@ == password@ + Seq::new(
            (KEY_LEN - password.spec_bytes().len()) as nat,
            |i: int| '\0',
        ),
{
    let len = password.as_bytes().len();
    if len > KEY_LEN {
        let (head, _) = password.split_at(KEY_LEN);
        let r = head.to_owned();
        assert(encode_utf8(r@) == head.spec_bytes());
        assert(head.spec_bytes() =~= normalized_key(password.spec_bytes()));
        r
    } else {
        let mut r = password.to_owned();
        let mut i: usize = len;
        while i < KEY_LEN
            invariant
                len <= i <= KEY_LEN,
                len == password.spec_bytes().len(),
                r@ == password@ + Seq::new((i - len) as nat, |j: int| '\0'),
            decreases KEY_LEN - i,
        {
            push_char(&mut r, '\0');
            i = i + 1;
            assert(r@ =~= password@ + Seq::new((i - len) as nat, |j: int| '\0'));
        }
        proof {
            let pad = Seq::new((KEY_LEN - len) as nat, |j: int| '\0');
            lemma_encode_concat(password@, pad);
            lemma_encode_nuls((KEY_LEN - len) as nat);
            assert(encode_utf8(r@) =~= normalized_key(password.spec_bytes()));
        }
        r
    }
}

/// A fresh random password of 14 ASCII letters and digits.
pub fn gen_pwd() -> (r: Result<String, &'static str>)
    ensures
        r matches Ok(s) && s@.len() == GENERATED_LEN && forall|j: int|
            0 <= j < s@.len() ==> is_ascii_alphanumeric(#[trigger] s@[j]),
{
    let mut s = String::new();
    let mut i: usize = 0;
    while i < GENERATED_LEN
        invariant
            i <= GENERATED_LEN,
            s@.len() == i,
            forall|j: int| 0 <= j < s@.len() ==> is_ascii_alphanumeric(#[trigger] s@[j]),
        decreases GENERATED_LEN - i,
    {
        let c = random_alphanumeric();
        push_char(&mut s, c);
        i = i + 1;
    }
    Ok(s)
}

} // verus!
