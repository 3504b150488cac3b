//! Dictionary lines: the first tab-separated field, lowercased and folded to
//! ASCII, kept when long enough.
use vstd::prelude::*;
use crate::solution::{lower_of, lowercase_chars};
use crate::text::string_of;
use crate::MIN_LEN;

verus! {

/// What unidecode's `unidecode` gives for a string.
pub uninterp spec fn ascii_fold_of(s: Seq<char>) -> Seq<char>;

/// Relies on unidecode's `unidecode`: an ASCII transliteration looked up
/// character by character, so a function of the characters alone.
#[verifier::external_body]
fn ascii_fold(s: &Vec<char>) -> (r: Vec<char>)
    ensures
        r@ == ascii_fold_of(s@),
{
    let text: String = s.iter().collect();
    unidecode::unidecode(&text).chars().collect()
}

/// The characters of a line before its first tab.
pub open spec fn first_field_of(s: Seq<char>) -> Seq<char>
    decreases s.len(),
{
    if s.len() == 0 {
        s
    } else if s[0] == '\t' {
        Seq::empty()
    } else {
        seq![s[0]] + first_field_of(s.drop_first())
    }
}

/// The dictionary word a line stands for, before the length rule.
pub open spec fn entry_of(line: Seq<char>) -> Seq<char> {
    ascii_fold_of(lower_of(first_field_of(line)))
}

/// The characters of `line` before its first tab.
pub fn first_field(line: &str) -> (r: String)
    ensures
        r@ == first_field_of(line@),
{
    let n = line.unicode_len();
    let mut field: Vec<char> = Vec::new();
    let mut i: usize = 0;
    let mut open = true;
    assert(line@.subrange(0, n as int) =~= line@);
    assert(field@ + first_field_of(line@) =~= first_field_of(line@));
    while open && i < n
        invariant
            n == line@.len(),
            i <= n,
            open ==> first_field_of(line@) == field@ + first_field_of(line@.subrange(i as int, n as int)),
            !open ==> first_field_of(line@) == field@,
        decreases n - i, (if open { 1int } else { 0int }),
    {
        let ghost rest = line@.subrange(i as int, n as int);
        let c = line.get_char(i);
        assert(rest[0] == c);
        if c == '\t' {
            assert(first_field_of(rest) =~= Seq::<char>::empty());
            assert(field@ + Seq::<char>::empty() =~= field@);
            open = false;
        } else {
            assert(rest.drop_first() =~= line@.subrange(i + 1, n as int));
            field.push(c);
            assert(field@ + first_field_of(line@.subrange(i + 1, n as int)) =~= (field@.drop_last()
                + seq![c]) + first_field_of(rest.drop_first()));
            i = i + 1;
        }
    }
    proof {
        if open {
            assert(line@.subrange(i as int, n as int) =~= Seq::<char>::empty());
            assert(field@ + Seq::<char>::empty() =~= field@);
        }
    }
    string_of(&field)
}

/// The dictionary word on `line`: its first tab-separated field,
/// lowercased and folded to ASCII; none when that has fewer than `MIN_LEN`
/// characters.
pub fn dictionary_word(line: &str) -> (r: Option<String>)
    ensures
        r is None <==> entry_of(line@).len() < MIN_LEN,
        r matches Some(w) ==> w@ == entry_of(line@),
{
    let field = first_field(line);
    let lowered = lowercase_chars(field.as_str());
    let folded = ascii_fold(&lowered);
    if folded.len() < MIN_LEN {
        None
    } else {
        Some(string_of(&folded))
    }
}

} // verus!
