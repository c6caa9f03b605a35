//! Form codes: the random twelve-character names under which forms are
//! filed.

use rand::Rng;
use vstd::prelude::*;
use crate::text::push_char;

verus! {

/// The length of a form code.
pub const FORM_CODE_LEN: usize = 12;

/// The number of characters a form code draws from: the capitals, the
/// small letters and the digits.
pub const CODE_ALPHABET_LEN: usize = 62;

/// The character of the code alphabet at `index`: first the capitals,
/// then the small letters, then the digits.
pub open spec fn code_char_spec(index: nat) -> char {
    if index < 26 {
        ('A' as u8 + index) as u8 as char
    } else if index < 52 {
        ('a' as u8 + (index - 26)) as u8 as char
    } else {
        ('0' as u8 + (index - 52)) as u8 as char
    }
}

/// Whether `c` is a character of the code alphabet.
pub open spec fn is_code_char(c: char) -> bool {
    ('A' <= c <= 'Z') || ('a' <= c <= 'z') || ('0' <= c <= '9')
}

/// The code that a list of alphabet positions spells.
pub open spec fn code_of(indices: Seq<usize>) -> Seq<char> {
    Seq::new(indices.len(), |i: int| code_char_spec(indices[i] as nat))
}

/// Every character of the alphabet is a letter or a digit.
pub proof fn lemma_code_char(index: nat)
    requires
        index < CODE_ALPHABET_LEN,
    ensures
        is_code_char(code_char_spec(index)),
{
}

/// Gives the character of the code alphabet at `index`.
pub fn code_char(index: usize) -> (c: char)
    requires
        index < CODE_ALPHABET_LEN,
    ensures
        c == code_char_spec(index as nat),
{
    let code: u8 = if index < 26 {
        65 + index as u8
    } else if index < 52 {
        97 + (index - 26) as u8
    } else {
        48 + (index - 52) as u8
    };
    code as char
}

/// Spells the code that a list of alphabet positions names.
pub fn form_code_from(indices: &[usize]) -> (code: String)
    requires
        forall|i: int| 0 <= i < indices@.len() ==> #[trigger] indices@[i] < CODE_ALPHABET_LEN,
    ensures
        code@ == code_of(indices@),
{
    let mut code = String::new();
    let mut i: usize = 0;
    while i < indices.len()
        invariant
            i <= indices.len(),
            forall|k: int| 0 <= k < indices@.len() ==> #[trigger] indices@[k] < CODE_ALPHABET_LEN,
            code@ =~= code_of(indices@).take(i as int),
        decreases indices.len() - i,
    {
        push_char(&mut code, code_char(indices[i]));
        i += 1;
    }
    assert(code_of(indices@).take(indices@.len() as int) =~= code_of(indices@));
    code
}

/// `rand::rngs::ThreadRng`, the handle to a thread's random number
/// generator, as an opaque type.
#[verifier::external_type_specification]
#[verifier::external_body]
pub struct ExThreadRng(rand::rngs::ThreadRng);

/// `rand::thread_rng`: the calling thread's random number generator.
/// Nothing is claimed of it.  It is seeded by the operating system on
/// first use and cannot be had where that fails.
#[verifier::external_body]
fn thread_generator() -> rand::rngs::ThreadRng {
    rand::thread_rng()
}

/// `Rng::gen_range` on the half-open range from zero to `bound`: some
/// number of that range, which must not be empty.  Which number is a
/// matter of chance.
#[verifier::external_body]
fn index_below(rng: &mut rand::rngs::ThreadRng, bound: usize) -> (index: usize)
    requires
        bound > 0,
    ensures
        index < bound,
{
    rng.gen_range(0..bound)
}

/// Draws a fresh form code: twelve characters of the code alphabet,
/// each chosen at random.
pub fn generate_form_code() -> (code: String)
    ensures
        code@.len() == FORM_CODE_LEN,
        forall|i: int| 0 <= i < code@.len() ==> is_code_char(#[trigger] code@[i]),
{
    let mut rng = thread_generator();
    let mut indices: Vec<usize> = Vec::new();
    let mut i: usize = 0;
    while i < FORM_CODE_LEN
        invariant
            i <= FORM_CODE_LEN,
            indices@.len() == i,
            forall|k: int| 0 <= k < indices@.len() ==> #[trigger] indices@[k] < CODE_ALPHABET_LEN,
        decreases FORM_CODE_LEN - i,
    {
        let index = index_below(&mut rng, CODE_ALPHABET_LEN);
        indices.push(index);
        i += 1;
    }
    let code = form_code_from(indices.as_slice());
    proof {
        assert forall|k: int| 0 <= k < code@.len() implies is_code_char(#[trigger] code@[k]) by {
            lemma_code_char(indices@[k] as nat);
        }
    }
    code
}

} // verus!
