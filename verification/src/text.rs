//! Text preparation: trimming surrounding whitespace and the comma-decimal
//! reinterpretation of a numeral.

use vstd::prelude::*;

verus! {

/// The whitespace characters that trimming removes.
pub open spec fn is_space(c: char) -> bool {
    ('\u{9}' <= c && c <= '\u{d}') || c == ' ' || c == '\u{85}' || c == '\u{a0}'
        || c == '\u{1680}' || ('\u{2000}' <= c && c <= '\u{200a}') || c == '\u{2028}'
        || c == '\u{2029}' || c == '\u{202f}' || c == '\u{205f}' || c == '\u{3000}'
}

/// `s` without its leading whitespace.
pub open spec fn trim_front(s: Seq<char>) -> Seq<char>
    decreases s.len(),
{
    if s.len() > 0 && is_space(s.first()) {
        trim_front(s.drop_first())
    } else {
        s
    }
}

/// `s` without its trailing whitespace.
pub open spec fn trim_back(s: Seq<char>) -> Seq<char>
    decreases s.len(),
{
    if s.len() > 0 && is_space(s.last()) {
        trim_back(s.drop_last())
    } else {
        s
    }
}

/// `s` without leading and trailing whitespace.
pub open spec fn trim(s: Seq<char>) -> Seq<char> {
    trim_back(trim_front(s))
}

/// The comma-decimal reinterpretation of `s`: every `'.'` removed (taken for
/// a thousands separator), then every `','` turned into `'.'` (taken for the
/// decimal separator).
pub open spec fn alt_form(s: Seq<char>) -> Seq<char>
    decreases s.len(),
{
    if s.len() == 0 {
        Seq::empty()
    } else {
        let rest = alt_form(s.drop_last());
        if s.last() == '.' {
            rest
        } else if s.last() == ',' {
            rest.push('.')
        } else {
            rest.push(s.last())
        }
    }
}

/// Trimming a sequence without surrounding whitespace leaves it unchanged.
pub proof fn lemma_trim_of_trimmed(s: Seq<char>)
    requires
        s.len() > 0 ==> !is_space(s.first()) && !is_space(s.last()),
    ensures
        trim(s) == s,
{
}

/// The reinterpretation distributes over concatenation.
pub proof fn lemma_alt_form_append(a: Seq<char>, b: Seq<char>)
    ensures
        alt_form(a + b) == alt_form(a) + alt_form(b),
    decreases b.len(),
{
    if b.len() == 0 {
        assert(a + b =~= a);
        assert(alt_form(a) + b =~= alt_form(a));
    } else {
        lemma_alt_form_append(a, b.drop_last());
        assert((a + b).drop_last() =~= a + b.drop_last());
        assert((a + b).last() == b.last());
        if b.last() == '.' {
            assert(alt_form(a) + alt_form(b) =~= alt_form(a) + alt_form(b.drop_last()));
        } else if b.last() == ',' {
            assert(alt_form(a) + alt_form(b) =~= (alt_form(a) + alt_form(b.drop_last())).push(
                '.',
            ));
        } else {
            assert(alt_form(a) + alt_form(b) =~= (alt_form(a) + alt_form(b.drop_last())).push(
                b.last(),
            ));
        }
    }
}

/// The reinterpretation leaves a sequence without dots and commas unchanged.
pub proof fn lemma_alt_form_plain(s: Seq<char>)
    requires
        forall|i: int| 0 <= i < s.len() ==> s[i] != '.' && s[i] != ',',
    ensures
        alt_form(s) == s,
    decreases s.len(),
{
    if s.len() > 0 {
        lemma_alt_form_plain(s.drop_last());
        assert(alt_form(s) =~= s);
    }
}

} // verus!
