//! What the file-comparison reports say, whatever they are handed: the word
//! "identical" is the signal of the true-identity case, and no report on
//! files that differ carries it unless the caller's own paths or changed
//! lines do.
use vstd::prelude::*;

use crate::line_diff_spec::{ChangeView, DiffView};
use crate::render::{
    change_line, identical_message, invisible_notes, presence, spec_describe_invisible_difference,
    spec_format_diff_changes, spec_render_diff, spec_render_file_diff,
};
use crate::text::{contains_seq, decimal, decimal_width4, is_digit, join_with, occurs_at, spaces};

verus! {

/// The word that marks the identity verdict.
pub open spec fn identity_word() -> Seq<char> {
    "identical"@
}

/// `s` never spells out the identity word.
pub open spec fn free(s: Seq<char>) -> bool {
    !contains_seq(s, identity_word())
}

/// `s` does not contain the character `c`.
pub open spec fn lacks(s: Seq<char>, c: char) -> bool {
    forall|i: int| 0 <= i < s.len() ==> s[i] != c
}

/// `c` is one of the letters of the identity word.
pub open spec fn in_word(c: char) -> bool {
    c == 'i' || c == 'd' || c == 'e' || c == 'n' || c == 't' || c == 'c' || c == 'a' || c == 'l'
}

/// Where `a` meets `b`, one side offers a character the word cannot use,
/// so no occurrence can straddle the seam.
pub open spec fn seam(a: Seq<char>, b: Seq<char>) -> bool {
    a.len() == 0 || b.len() == 0 || !in_word(a.last()) || !in_word(b[0])
}

/// Neither text of a change spells out the identity word.
pub open spec fn change_free(c: ChangeView) -> bool {
    match c {
        ChangeView::Added(_, t) => free(t),
        ChangeView::Removed(_, t) => free(t),
        ChangeView::Modified(_, o, n) => free(o) && free(n),
    }
}

pub(crate) proof fn lemma_word_letters()
    ensures
        identity_word().len() == 9,
        forall|j: int| 0 <= j < 9 ==> in_word(#[trigger] identity_word()[j]),
{
    reveal_strlit("identical");
}

pub(crate) proof fn lemma_lacking_letter(s: Seq<char>, c: char)
    requires
        lacks(s, c),
        in_word(c),
    ensures
        free(s),
{
    reveal_strlit("identical");
    let w = identity_word();
    let j: int = if c == 'i' { 0 } else if c == 'd' { 1 } else if c == 'e' { 2 } else if c == 'n' {
        3
    } else if c == 't' { 4 } else if c == 'c' { 6 } else if c == 'a' { 7 } else { 8 };
    assert(w[j] == c);
    if contains_seq(s, w) {
        let p = choose|p: int| occurs_at(s, w, p);
        assert(s.subrange(p, p + w.len())[j] == s[p + j]);
    }
}

pub(crate) proof fn lemma_concat_free(a: Seq<char>, b: Seq<char>)
    requires
        free(a),
        free(b),
        seam(a, b),
    ensures
        free(a + b),
{
    lemma_word_letters();
    let w = identity_word();
    let s = a + b;
    if contains_seq(s, w) {
        let p = choose|p: int| occurs_at(s, w, p);
        let n = w.len() as int;
        if p + n <= a.len() {
            assert(a.subrange(p, p + n) =~= s.subrange(p, p + n));
            assert(occurs_at(a, w, p));
        } else if p >= a.len() {
            assert(b.subrange(p - a.len(), p - a.len() + n) =~= s.subrange(p, p + n));
            assert(occurs_at(b, w, p - a.len()));
        } else {
            let k1 = a.len() - 1 - p;
            let k2 = a.len() - p;
            assert(s.subrange(p, p + n)[k1] == s[a.len() - 1]);
            assert(s.subrange(p, p + n)[k2] == s[a.len() as int]);
            assert(in_word(w[k1]));
            assert(in_word(w[k2]));
        }
    }
}

pub(crate) proof fn lemma_decimal_digits(n: nat)
    ensures
        decimal(n).len() > 0,
        forall|k: int| 0 <= k < decimal(n).len() ==> is_digit(#[trigger] decimal(n)[k]),
    decreases n,
{
    if n >= 10 {
        lemma_decimal_digits(n / 10);
    }
}

pub(crate) proof fn lemma_decimal_free(n: nat)
    ensures
        free(decimal(n)),
        decimal(n).len() > 0,
{
    lemma_decimal_digits(n);
    lemma_lacking_letter(decimal(n), 'i');
}

proof fn lemma_width4_free(n: nat)
    ensures
        free(decimal_width4(n)),
        decimal_width4(n).len() > 0,
{
    lemma_decimal_digits(n);
    let d = decimal(n);
    let s = decimal_width4(n);
    if d.len() < 4 {
        let sp = spaces((4 - d.len()) as nat);
        assert forall|k: int| 0 <= k < s.len() implies s[k] != 'i' by {
            if k < sp.len() {
                assert(s[k] == sp[k]);
            } else {
                assert(s[k] == d[k - sp.len()]);
            }
        }
    }
    lemma_lacking_letter(s, 'i');
}

proof fn lemma_note_free(c1: Seq<char>, c2: Seq<char>)
    ensures
        forall|k: int| 0 <= k < invisible_notes(c1, c2).len() ==> free(#[trigger] invisible_notes(c1, c2)[k]),
{
    reveal_strlit("line endings: ");
    reveal_strlit(" CRLF vs ");
    reveal_strlit(" CRLF");
    reveal_strlit("trailing newline: ");
    reveal_strlit("present");
    reveal_strlit("absent");
    reveal_strlit(" vs ");
    reveal_strlit(" bytes, invisible to a line-based diff");
    let crlf1 = crate::render::crlf_count(c1);
    let crlf2 = crate::render::crlf_count(c2);
    lemma_decimal_free(crlf1);
    lemma_decimal_free(crlf2);
    lemma_lacking_letter("line endings: "@, 'c');
    lemma_lacking_letter(" CRLF vs "@, 'i');
    lemma_lacking_letter(" CRLF"@, 'i');
    let a1 = "line endings: "@ + decimal(crlf1);
    lemma_concat_free("line endings: "@, decimal(crlf1));
    lemma_concat_free(a1, " CRLF vs "@);
    lemma_concat_free(a1 + " CRLF vs "@, decimal(crlf2));
    lemma_concat_free(a1 + " CRLF vs "@ + decimal(crlf2), " CRLF"@);

    lemma_lacking_letter("trailing newline: "@, 'c');
    lemma_lacking_letter(" vs "@, 'i');
    let nl1 = crate::text::ends_with(c1, "\n"@);
    let nl2 = crate::text::ends_with(c2, "\n"@);
    lemma_lacking_letter(presence(nl1), 'i');
    lemma_lacking_letter(presence(nl2), 'i');
    let b1 = "trailing newline: "@ + presence(nl1);
    lemma_concat_free("trailing newline: "@, presence(nl1));
    lemma_concat_free(b1, " vs "@);
    lemma_concat_free(b1 + " vs "@, presence(nl2));

    let l1 = crate::tokens::byte_len(c1);
    let l2 = crate::tokens::byte_len(c2);
    lemma_decimal_free(l1);
    lemma_decimal_free(l2);
    lemma_lacking_letter(" bytes, invisible to a line-based diff"@, 'c');
    lemma_concat_free(decimal(l1), " vs "@);
    lemma_concat_free(decimal(l1) + " vs "@, decimal(l2));
    lemma_concat_free(decimal(l1) + " vs "@ + decimal(l2), " bytes, invisible to a line-based diff"@);
}

proof fn lemma_join_free(ls: Seq<Seq<char>>, sep: Seq<char>)
    requires
        forall|k: int| 0 <= k < ls.len() ==> free(#[trigger] ls[k]),
        free(sep),
        sep.len() > 0,
        !in_word(sep[0]),
        !in_word(sep.last()),
    ensures
        free(join_with(ls, sep)),
    decreases ls.len(),
{
    if ls.len() == 0 {
        lemma_lacking_letter(Seq::<char>::empty(), 'i');
    } else if ls.len() > 1 {
        assert forall|k: int| 0 <= k < ls.drop_last().len() implies free(#[trigger] ls.drop_last()[k]) by {
            assert(ls.drop_last()[k] == ls[k]);
        }
        lemma_join_free(ls.drop_last(), sep);
        let j = join_with(ls.drop_last(), sep);
        lemma_concat_free(j, sep);
        assert(free(ls[ls.len() - 1]));
        assert((j + sep).len() == 0 || (j + sep).last() == sep.last());
        lemma_concat_free(j + sep, ls.last());
    }
}

/// The report on files whose bytes differ but whose lines match never
/// spells out "identical" (the true-identity signal), unless one of the two
/// paths it names does.
pub proof fn law_invisible_report_never_says_identical(
    file1: Seq<char>,
    file2: Seq<char>,
    content1: Seq<char>,
    content2: Seq<char>,
)
    requires
        free(file1),
        free(file2),
    ensures
        free(spec_describe_invisible_difference(file1, file2, content1, content2)),
{
    reveal_strlit(" → ");
    reveal_strlit("\n   differs, text matches (");
    reveal_strlit("; ");
    reveal_strlit(")\n");
    lemma_lacking_letter(" → "@, 'i');
    lemma_lacking_letter("\n   differs, text matches ("@, 'l');
    lemma_lacking_letter("; "@, 'i');
    lemma_lacking_letter(")\n"@, 'i');
    lemma_note_free(content1, content2);
    let notes = join_with(invisible_notes(content1, content2), "; "@);
    lemma_join_free(invisible_notes(content1, content2), "; "@);
    let a = file1 + " → "@;
    lemma_concat_free(file1, " → "@);
    lemma_concat_free(a, file2);
    lemma_concat_free(a + file2, "\n   differs, text matches ("@);
    let b = a + file2 + "\n   differs, text matches ("@;
    lemma_concat_free(b, notes);
    lemma_concat_free(b + notes, ")\n"@);
}

proof fn lemma_change_line_free(c: ChangeView)
    requires
        change_free(c),
    ensures
        free(change_line(c)),
        change_line(c).len() > 0,
        change_line(c).last() == '\n',
{
    reveal_strlit("+");
    reveal_strlit("-");
    reveal_strlit("~");
    reveal_strlit(" ");
    reveal_strlit("\n");
    reveal_strlit(" → ");
    lemma_lacking_letter("+"@, 'i');
    lemma_lacking_letter("-"@, 'i');
    lemma_lacking_letter("~"@, 'i');
    lemma_lacking_letter(" "@, 'i');
    lemma_lacking_letter("\n"@, 'i');
    lemma_lacking_letter(" → "@, 'i');
    match c {
        ChangeView::Added(ln, t) => {
            lemma_width4_free(ln);
            let d = decimal_width4(ln);
            lemma_concat_free("+"@, d);
            lemma_concat_free("+"@ + d, " "@);
            lemma_concat_free("+"@ + d + " "@, t);
            lemma_concat_free("+"@ + d + " "@ + t, "\n"@);
        },
        ChangeView::Removed(ln, t) => {
            lemma_width4_free(ln);
            let d = decimal_width4(ln);
            lemma_concat_free("-"@, d);
            lemma_concat_free("-"@ + d, " "@);
            lemma_concat_free("-"@ + d + " "@, t);
            lemma_concat_free("-"@ + d + " "@ + t, "\n"@);
        },
        ChangeView::Modified(ln, o, n) => {
            lemma_width4_free(ln);
            let d = decimal_width4(ln);
            lemma_concat_free("~"@, d);
            lemma_concat_free("~"@ + d, " "@);
            lemma_concat_free("~"@ + d + " "@, o);
            lemma_concat_free("~"@ + d + " "@ + o, " → "@);
            lemma_concat_free("~"@ + d + " "@ + o + " → "@, n);
            lemma_concat_free("~"@ + d + " "@ + o + " → "@ + n, "\n"@);
        },
    }
}

proof fn lemma_changes_free(cs: Seq<ChangeView>)
    requires
        forall|k: int| 0 <= k < cs.len() ==> change_free(#[trigger] cs[k]),
    ensures
        free(spec_format_diff_changes(cs)),
        spec_format_diff_changes(cs).len() == 0 || spec_format_diff_changes(cs).last() == '\n',
    decreases cs.len(),
{
    if cs.len() == 0 {
        lemma_lacking_letter(Seq::<char>::empty(), 'i');
    } else {
        assert forall|k: int| 0 <= k < cs.drop_last().len() implies change_free(#[trigger] cs.drop_last()[k]) by {
            assert(cs.drop_last()[k] == cs[k]);
        }
        lemma_changes_free(cs.drop_last());
        assert(change_free(cs[cs.len() - 1]));
        lemma_change_line_free(cs.last());
        lemma_concat_free(spec_format_diff_changes(cs.drop_last()), change_line(cs.last()));
    }
}

pub(crate) proof fn lemma_render_diff_free(file1: Seq<char>, file2: Seq<char>, d: DiffView)
    requires
        free(file1),
        free(file2),
        d.changes.len() > 0,
        forall|k: int| 0 <= k < d.changes.len() ==> change_free(#[trigger] d.changes[k]),
    ensures
        free(spec_render_diff(file1, file2, d).0),
{
    reveal_strlit(" → ");
    reveal_strlit("\n");
    reveal_strlit("   +");
    reveal_strlit(" added, -");
    reveal_strlit(" removed, ~");
    reveal_strlit(" modified\n\n");
    lemma_lacking_letter(" → "@, 'i');
    lemma_lacking_letter("\n"@, 'i');
    lemma_lacking_letter("   +"@, 'i');
    lemma_lacking_letter(" added, -"@, 'i');
    lemma_lacking_letter(" removed, ~"@, 'i');
    lemma_lacking_letter(" modified\n\n"@, 'c');
    lemma_decimal_free(d.added);
    lemma_decimal_free(d.removed);
    lemma_decimal_free(d.modified);
    lemma_changes_free(d.changes);
    let s1 = file1 + " → "@;
    lemma_concat_free(file1, " → "@);
    let s2 = s1 + file2;
    lemma_concat_free(s1, file2);
    let s3 = s2 + "\n"@;
    lemma_concat_free(s2, "\n"@);
    let s4 = s3 + "   +"@;
    lemma_concat_free(s3, "   +"@);
    let s5 = s4 + decimal(d.added);
    lemma_concat_free(s4, decimal(d.added));
    let s6 = s5 + " added, -"@;
    lemma_concat_free(s5, " added, -"@);
    let s7 = s6 + decimal(d.removed);
    lemma_concat_free(s6, decimal(d.removed));
    let s8 = s7 + " removed, ~"@;
    lemma_concat_free(s7, " removed, ~"@);
    let s9 = s8 + decimal(d.modified);
    lemma_concat_free(s8, decimal(d.modified));
    let s10 = s9 + " modified\n\n"@;
    lemma_concat_free(s9, " modified\n\n"@);
    lemma_concat_free(s10, spec_format_diff_changes(d.changes));
}

/// Identity is announced exactly when the contents are the same bytes: the
/// report on a file comparison spells out "identical" if and only if the two
/// contents are equal, provided the paths and the changed lines it quotes do
/// not themselves contain the word.
pub proof fn law_only_equal_contents_are_called_identical(
    file1: Seq<char>,
    file2: Seq<char>,
    content1: Seq<char>,
    content2: Seq<char>,
    d: DiffView,
)
    requires
        free(file1),
        free(file2),
        forall|k: int| 0 <= k < d.changes.len() ==> change_free(#[trigger] d.changes[k]),
    ensures
        contains_seq(spec_render_file_diff(file1, file2, content1, content2, d).0, identity_word())
            <==> content1 == content2,
{
    if content1 == content2 {
        reveal_strlit("[ok] Files are identical\n");
        reveal_strlit("identical");
        let m = identical_message();
        let w = identity_word();
        assert(m.len() == 25);
        assert(m[15] == w[0] && m[16] == w[1] && m[17] == w[2] && m[18] == w[3] && m[19] == w[4]);
        assert(m[20] == w[5] && m[21] == w[6] && m[22] == w[7] && m[23] == w[8]);
        assert(m.subrange(15, 24) =~= w);
        assert(occurs_at(m, w, 15));
    } else if d.changes.len() == 0 {
        law_invisible_report_never_says_identical(file1, file2, content1, content2);
    } else {
        lemma_render_diff_free(file1, file2, d);
    }
}

} // verus!
