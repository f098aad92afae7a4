//! Character policy shared by every operation that takes free text:
//! a word is a non-empty run of ASCII letters, compared without case.
use vstd::prelude::*;
use vstd::std_specs::iter::IteratorSpec;

verus! {

/// Why a word, a batch of words or a word source was refused.
#[derive(Debug)]
pub enum CustomError {
    /// A word (a line of a word source) of length zero.
    InvalidFormatting,
    /// The first character that is not an ASCII letter, and the word as given.
    InvalidCharacter(char, String),
    /// The word source could not be read.
    UnableToOpen,
}

pub open spec fn is_letter(c: char) -> bool {
    ('a' <= c && c <= 'z') || ('A' <= c && c <= 'Z')
}

pub open spec fn is_lower_letter(c: char) -> bool {
    'a' <= c && c <= 'z'
}

/// ASCII lower case of a letter; other characters are left alone.
pub open spec fn lower(c: char) -> char {
    if 'A' <= c && c <= 'Z' {
        ((c as u32) + 32) as char
    } else {
        c
    }
}

/// A word that the character policy accepts.
pub open spec fn is_valid_word(w: Seq<char>) -> bool {
    w.len() > 0 && forall|i: int| 0 <= i < w.len() ==> is_letter(#[trigger] w[i])
}

/// A word as the trie stores it: non-empty lower-case ASCII letters.
pub open spec fn is_stored_word(w: Seq<char>) -> bool {
    w.len() > 0 && forall|i: int| 0 <= i < w.len() ==> is_lower_letter(#[trigger] w[i])
}

/// The case-folded form of a word.
pub open spec fn normalize(w: Seq<char>) -> Seq<char> {
    w.map_values(|c: char| lower(c))
}

/// Every character is a letter; the empty word qualifies (used for prefixes).
pub open spec fn all_letters(w: Seq<char>) -> bool {
    forall|i: int| 0 <= i < w.len() ==> is_letter(#[trigger] w[i])
}

/// `e` is the error that the policy reports for the invalid word `w`.
pub open spec fn is_error_for(e: CustomError, w: Seq<char>) -> bool {
    match e {
        CustomError::InvalidFormatting => w.len() == 0,
        CustomError::InvalidCharacter(c, s) => {
            &&& s@ == w
            &&& exists|i: int|
                0 <= i < w.len() && !is_letter(#[trigger] w[i]) && c == w[i] && (forall|j: int|
                    0 <= j < i ==> is_letter(#[trigger] w[j]))
        },
        CustomError::UnableToOpen => false,
    }
}

/// `e` is the error for the first word of `ws` that the policy refuses.
pub open spec fn is_batch_error(e: CustomError, ws: Seq<Seq<char>>) -> bool {
    exists|k: int|
        0 <= k < ws.len() && !is_valid_word(#[trigger] ws[k]) && is_error_for(e, ws[k]) && (
        forall|j: int| 0 <= j < k ==> is_valid_word(#[trigger] ws[j]))
}

/// Case folding leaves the policy's verdict and the length as they were.
pub proof fn lemma_normalize_valid(w: Seq<char>)
    ensures
        normalize(w).len() == w.len(),
        is_valid_word(w) ==> is_valid_word(normalize(w)) && is_stored_word(normalize(w)),
{
    if is_valid_word(w) {
        assert forall|i: int| 0 <= i < w.len() implies is_lower_letter(#[trigger] normalize(w)[i]) by {
            assert(is_letter(w[i]));
        }
    }
}

/// Folding twice is folding once.
pub proof fn lemma_normalize_idem(w: Seq<char>)
    ensures
        normalize(normalize(w)) == normalize(w),
{
    assert(normalize(normalize(w)) =~= normalize(w));
}

pub open spec fn views(ws: Seq<String>) -> Seq<Seq<char>> {
    ws.map_values(|s: String| s@)
}

pub fn is_letter_char(c: char) -> (r: bool)
    ensures
        r == is_letter(c),
{
    ('a' <= c && c <= 'z') || ('A' <= c && c <= 'Z')
}

pub fn lower_char(c: char) -> (r: char)
    ensures
        r == lower(c),
        is_letter(c) ==> is_lower_letter(r),
{
    if 'A' <= c && c <= 'Z' {
        ((c as u8) + 32) as char
    } else {
        c
    }
}

/// The characters of a string, in order.
pub fn chars_of(s: &str) -> (r: Vec<char>)
    ensures
        r@ == s@,
{
    let mut it = s.chars();
    let mut v: Vec<char> = Vec::new();
    loop
        invariant
            it.obeys_prophetic_iter_laws(),
            it.decrease() is Some,
            v@ + it.remaining() == s@,
        decreases it.decrease()->0,
    {
        let ghost before = it.remaining();
        match it.next() {
            Some(c) => {
                v.push(c);
                assert(v@ + it.remaining() =~= s@) by {
                    assert(before =~= seq![c] + it.remaining());
                }
            },
            None => {
                assert(v@ =~= s@);
                return v;
            },
        }
    }
}

/// Checks one word against the character policy and returns it case-folded.
/// With `allow_empty`, the empty word is accepted too (an empty prefix).
pub fn validate_word(s: &String, allow_empty: bool) -> (r: Result<Vec<char>, CustomError>)
    ensures
        r is Ok <==> (all_letters(s@) && (allow_empty || s@.len() > 0)),
        r is Ok ==> r->Ok_0@ == normalize(s@),
        r is Err ==> is_error_for(r->Err_0, s@),
{
    let cs = chars_of(s.as_str());
    if cs.len() == 0 {
        if allow_empty {
            assert(cs@ =~= normalize(s@));
            return Ok(cs);
        }
        return Err(CustomError::InvalidFormatting);
    }
    let mut out: Vec<char> = Vec::new();
    let mut i: usize = 0;
    while i < cs.len()
        invariant
            cs@ == s@,
            0 <= i <= cs.len(),
            out@ =~= normalize(s@.take(i as int)),
            all_letters(s@.take(i as int)),
        decreases cs.len() - i,
    {
        let c = cs[i];
        if !is_letter_char(c) {
            let ghost w = s@;
            let e = CustomError::InvalidCharacter(c, s.clone());
            assert(is_error_for(e, s@)) by {
                assert forall|j: int| 0 <= j < i implies is_letter(w[j]) by {
                    assert(s@.take(i as int)[j] == w[j]);
                }
            }
            return Err(e);
        }
        out.push(lower_char(c));
        i = i + 1;
        assert(s@.take(i as int) =~= s@.take(i - 1).push(c));
    }
    assert(s@.take(i as int) =~= s@);
    Ok(out)
}

/// Checks a batch of words, all or nothing. On success every word is replaced
/// by its case-folded form; on failure the batch is left as it was and the
/// error describes the first word that the policy refuses.
pub fn validate_string(contents: &mut Vec<String>) -> (r: Result<bool, CustomError>)
    ensures
        r is Ok <==> (forall|k: int| 0 <= k < old(contents)@.len() ==> is_valid_word(#[trigger] old(contents)@[k]@)),
        r is Ok ==> r->Ok_0 && final(contents)@.len() == old(contents)@.len() && (forall|k: int|
            0 <= k < old(contents)@.len() ==> #[trigger] final(contents)@[k]@ == normalize(old(contents)@[k]@)),
        r is Err ==> is_batch_error(r->Err_0, views(old(contents)@)) && final(contents)@ == old(contents)@,
{
    let mut done: Vec<String> = Vec::new();
    let mut k: usize = 0;
    while k < contents.len()
        invariant
            0 <= k <= contents.len(),
            done@.len() == k,
            forall|j: int| 0 <= j < k ==> is_valid_word(#[trigger] contents@[j]@),
            forall|j: int| 0 <= j < k ==> #[trigger] done@[j]@ == normalize(contents@[j]@),
        decreases contents.len() - k,
    {
        match validate_word(&contents[k], false) {
            Ok(cs) => {
                done.push(string_of(&cs));
                k = k + 1;
            },
            Err(e) => {
                assert(is_batch_error(e, views(contents@))) by {
                    assert(views(contents@)[k as int] == contents@[k as int]@);
                    assert forall|j: int| 0 <= j < k implies is_valid_word(#[trigger] views(contents@)[j]) by {
                        assert(views(contents@)[j] == contents@[j]@);
                    }
                }
                return Err(e);
            },
        }
    }
    *contents = done;
    Ok(true)
}

/// A line without the carriage return of a `\r\n` line ending.
pub open spec fn strip_cr(l: Seq<char>) -> Seq<char> {
    if l.len() > 0 && l.last() == '\r' {
        l.drop_last()
    } else {
        l
    }
}

/// The lines of `t`, the current line having begun with `cur`. A line ends at
/// `\n` or `\r\n`; the last line needs no line ending, and an empty text
/// after the last line ending is no line.
pub open spec fn lines_from(t: Seq<char>, cur: Seq<char>) -> Seq<Seq<char>>
    decreases t.len(),
{
    if t.len() == 0 {
        if cur.len() == 0 {
            Seq::empty()
        } else {
            seq![cur]
        }
    } else if t[0] == '\n' {
        seq![strip_cr(cur)] + lines_from(t.drop_first(), Seq::empty())
    } else {
        lines_from(t.drop_first(), cur.push(t[0]))
    }
}

pub open spec fn lines(t: Seq<char>) -> Seq<Seq<char>> {
    lines_from(t, Seq::empty())
}

/// Splits a word source into its lines.
pub fn split_lines(text: &str) -> (r: Vec<String>)
    ensures
        views(r@) == lines(text@),
{
    let cs = chars_of(text);
    let mut out: Vec<String> = Vec::new();
    let mut cur: Vec<char> = Vec::new();
    let mut i: usize = 0;
    assert(cs@.skip(0) =~= cs@);
    assert(cur@ =~= Seq::<char>::empty());
    assert(views(out@) =~= Seq::<Seq<char>>::empty());
    assert(views(out@) + lines_from(cs@.skip(0), cur@) =~= lines(text@));
    while i < cs.len()
        invariant
            cs@ == text@,
            0 <= i <= cs@.len(),
            views(out@) + lines_from(cs@.skip(i as int), cur@) == lines(text@),
        decreases cs.len() - i,
    {
        let ghost rest = cs@.skip(i as int);
        assert(rest[0] == cs@[i as int]);
        assert(rest.drop_first() =~= cs@.skip(i + 1));
        if cs[i] == '\n' {
            let ghost line = strip_cr(cur@);
            if cur.len() > 0 && cur[cur.len() - 1] == '\r' {
                cur.pop();
            }
            assert(cur@ =~= line);
            let ghost out_before = out@;
            out.push(string_of(&cur));
            assert(views(out@) =~= views(out_before).push(line));
            assert(views(out_before) + (seq![line] + lines_from(cs@.skip(i + 1), Seq::empty()))
                =~= views(out@) + lines_from(cs@.skip(i + 1), Seq::empty()));
            cur = Vec::new();
            assert(cur@ =~= Seq::<char>::empty());
        } else {
            cur.push(cs[i]);
        }
        i = i + 1;
    }
    assert(cs@.skip(i as int) =~= Seq::<char>::empty());
    if cur.len() > 0 {
        let ghost out_before = out@;
        out.push(string_of(&cur));
        assert(views(out@) =~= views(out_before) + seq![cur@]);
    } else {
        assert(views(out@) + Seq::empty() =~= views(out@));
    }
    out
}

/// Relies on `String: FromIterator<&char>`: the string holds the characters in order.
#[verifier::external_body]
pub(crate) fn string_of(v: &Vec<char>) -> (r: String)
    ensures
        r@ == v@,
{
    String::from_iter(v.iter())
}

} // verus!
