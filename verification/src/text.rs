use vstd::prelude::*;
use vstd::string::StringExecFns;
use vstd::string::StringSliceAdditionalSpecFns;
use vstd::utf8::decode_utf8;
use vstd::utf8::encode_utf8;
use vstd::utf8::is_char_boundary;

verus! {

broadcast use vstd::utf8::group_utf8_lib;

/// The bytes that a string occupies. Locations in this library count bytes.
pub open spec fn bytes_of(s: Seq<char>) -> Seq<u8> {
    encode_utf8(s)
}

/// The number of bytes that a string occupies.
pub open spec fn byte_len(s: Seq<char>) -> nat {
    encode_utf8(s).len()
}

/// Whether the byte range `from..to` lies inside `s` and begins and ends
/// between two characters.
pub open spec fn cuts_cleanly(s: Seq<char>, from: int, to: int) -> bool {
    &&& 0 <= from <= to <= byte_len(s)
    &&& is_char_boundary(bytes_of(s), from)
    &&& is_char_boundary(bytes_of(s), to)
}

/// The string made of the bytes `from..to` of `s`.
pub open spec fn piece(s: Seq<char>, from: int, to: int) -> Seq<char> {
    decode_utf8(bytes_of(s).subrange(from, to))
}

/// Whether `needle` stands in `hay` at byte offset `at`.
pub open spec fn occurs_at(hay: Seq<u8>, needle: Seq<u8>, at: int) -> bool {
    &&& 0 <= at
    &&& at + needle.len() <= hay.len()
    &&& hay.subrange(at, at + needle.len()) == needle
}

/// Whether `needle` stands somewhere in `hay`.
pub open spec fn occurs_in(hay: Seq<char>, needle: Seq<char>) -> bool {
    exists|at: int| occurs_at(bytes_of(hay), bytes_of(needle), at)
}

/// Whether `at` is the first byte offset at which `needle` stands in `hay`.
pub open spec fn first_occurrence(hay: Seq<char>, needle: Seq<char>, at: int) -> bool {
    &&& occurs_at(bytes_of(hay), bytes_of(needle), at)
    &&& forall|earlier: int|
        0 <= earlier < at ==> !occurs_at(bytes_of(hay), bytes_of(needle), earlier)
}

/// The lower-case form of a string, as the standard library computes it.
pub uninterp spec fn lowercase_of(s: Seq<char>) -> Seq<char>;

/// The upper-case form of a string, as the standard library computes it.
pub uninterp spec fn uppercase_of(s: Seq<char>) -> Seq<char>;

/// Whether the standard library counts a character as alphabetic or numeric.
pub uninterp spec fn alphanumeric(c: char) -> bool;

/// `str::find` with a string as the pattern: the byte offset of the first place
/// where the bytes of `needle` stand in `hay`, or `None` where they stand nowhere.
#[verifier::external_body]
pub(crate) fn find_str(hay: &str, needle: &str) -> (found: Option<usize>)
    ensures
        found matches Some(at) ==> first_occurrence(hay@, needle@, at as int),
        found is None ==> !occurs_in(hay@, needle@),
{
    hay.find(needle)
}

/// `str::to_lowercase`: the result is a function of the string alone.
#[verifier::external_body]
pub(crate) fn to_lower(s: &str) -> (out: String)
    ensures
        out@ == lowercase_of(s@),
{
    s.to_lowercase()
}

/// `str::to_uppercase`: the result is a function of the string alone.
#[verifier::external_body]
pub(crate) fn to_upper(s: &str) -> (out: String)
    ensures
        out@ == uppercase_of(s@),
{
    s.to_uppercase()
}

/// `char::is_alphanumeric`: the answer is a function of the character alone.
#[verifier::external_body]
pub(crate) fn is_alphanumeric(c: char) -> (yes: bool)
    ensures
        yes == alphanumeric(c),
{
    c.is_alphanumeric()
}

/// `char::to_string`: the string that holds the one character.
#[verifier::external_body]
pub(crate) fn char_string(c: char) -> (out: String)
    ensures
        out@ == seq![c],
{
    c.to_string()
}

/// The two strings one after the other.
pub fn join(left: &str, right: &str) -> (out: String)
    ensures
        out@ == left@ + right@,
{
    let head = String::from_str(left);
    head.concat(right)
}

/// The part of `s` between the byte offsets `from` and `to`, where that is a
/// string: `None` where the range leaves `s`, runs backwards or cuts a character.
pub fn substring(s: &str, from: usize, to: usize) -> (out: Option<String>)
    ensures
        (out is Some) == cuts_cleanly(s@, from as int, to as int),
        out matches Some(part) ==> part@ == piece(s@, from as int, to as int),
{
    proof {
        if is_char_boundary(s.spec_bytes(), to as int) {
            lemma_boundary_in_range(s.spec_bytes(), to as int);
        }
    }
    if from <= to && s.is_char_boundary(from) && s.is_char_boundary(to) {
        let (head, _) = s.split_at(to);
        proof {
            let whole = s.spec_bytes();
            let front = whole.subrange(0, to as int);
            assert(head.spec_bytes() == front);
            lemma_boundary_of_prefix(whole, from as int, to as int);
        }
        let (_, part) = head.split_at(from);
        proof {
            let whole = s.spec_bytes();
            let front = whole.subrange(0, to as int);
            assert(front.subrange(from as int, front.len() as int) =~= whole.subrange(
                from as int,
                to as int,
            ));
            assert(decode_utf8(encode_utf8(part@)) == part@);
        }
        Some(String::from_str(part))
    } else {
        None
    }
}

/// A character boundary lies inside the string or at its end.
pub proof fn lemma_boundary_in_range(bytes: Seq<u8>, at: int)
    requires
        vstd::utf8::valid_utf8(bytes),
        is_char_boundary(bytes, at),
    ensures
        0 <= at <= bytes.len(),
    decreases bytes.len(),
{
    if at != 0 {
        lemma_boundary_in_range(
            vstd::utf8::pop_first_scalar(bytes),
            at - vstd::utf8::length_of_first_scalar(bytes),
        );
    }
}

/// A character boundary of a string is one of each prefix that reaches it.
pub proof fn lemma_boundary_of_prefix(bytes: Seq<u8>, at: int, end: int)
    requires
        vstd::utf8::valid_utf8(bytes),
        0 <= at <= end <= bytes.len(),
        is_char_boundary(bytes, at),
        is_char_boundary(bytes, end),
    ensures
        vstd::utf8::valid_utf8(bytes.subrange(0, end)),
        is_char_boundary(bytes.subrange(0, end), at),
{
    let front = bytes.subrange(0, end);
    vstd::utf8::valid_utf8_split(bytes, end);
    if at == end {
        vstd::utf8::is_char_boundary_start_end_of_seq(front);
    } else if at == 0 {
    } else {
        vstd::utf8::is_char_boundary_iff_not_is_continuation_byte(bytes, at);
        vstd::utf8::is_char_boundary_iff_not_is_continuation_byte(front, at);
    }
}

} // verus!
