//! The deletability oracle: decides whether a directory may be deleted.

use vstd::prelude::*;
use vstd::string::StrSliceExecFns;
use vstd::string::StringExecFns;
use crate::lower;
use crate::lower_char;

verus! {

/// Lower-cases a name.  The result is the input with every ASCII capital
/// letter replaced by its lower-case counterpart.
pub fn to_lowercase(s: &String) -> (r: String)
    ensures
        r@ == lower(s@),
{
    let src = s.as_str();
    let n = src.unicode_len();
    let mut r = String::new();
    let mut i: usize = 0;
    while i < n
        invariant
            i <= n,
            n == s@.len(),
            src@ == s@,
            r@ == lower(s@.subrange(0, i as int)),
        decreases n - i,
    {
        let c = src.get_char(i);
        if 'A' <= c && c <= 'Z' {
            let k = (c as u32 - 65) as usize;
            let alphabet = "abcdefghijklmnopqrstuvwxyz";
            proof {
                reveal_strlit("abcdefghijklmnopqrstuvwxyz");
            }
            let piece = alphabet.substring_char(k, k + 1);
            r.append(piece);
            proof {
                assert(piece@ =~= seq![lower_char(c)]);
            }
        } else {
            let piece = src.substring_char(i, i + 1);
            r.append(piece);
            proof {
                assert(piece@ =~= seq![lower_char(c)]);
            }
        }
        i = i + 1;
        proof {
            assert(r@ =~= lower(s@.subrange(0, i as int)));
        }
    }
    proof {
        assert(s@.subrange(0, n as int) =~= s@);
    }
    r
}

/// True when the two strings hold the same characters.
pub fn string_is(s: &String, t: &str) -> (r: bool)
    ensures
        r == (s@ == t@),
{
    let t2 = t.to_owned();
    s.eq(&t2)
}

/// The fixed allow-list: entry names that never block a deletion.
/// All of them are already lower case; names read from disk are folded to
/// lower case before they are held against this list.
///
/// - `.ds_store` and `thumbs.db` / `desktop.ini` are OS metadata,
/// - `.ipynb_checkpoints` holds notebook checkpoints,
/// - `.jekyll-cache` is a site generator's cache,
/// - `.venv` is a virtual environment,
/// - `__pycache__` is a bytecode cache.
pub open spec fn allowlisted(name: Seq<char>) -> bool {
    ||| name == ".ds_store"@
    ||| name == ".ipynb_checkpoints"@
    ||| name == ".jekyll-cache"@
    ||| name == ".venv"@
    ||| name == "__pycache__"@
    ||| name == "desktop.ini"@
    ||| name == "thumbs.db"@
}

/// Decides membership in the allow-list.
pub fn is_allowlisted(name: &String) -> (r: bool)
    ensures
        r == allowlisted(name@),
{
    string_is(name, ".ds_store") || string_is(name, ".ipynb_checkpoints")
        || string_is(name, ".jekyll-cache") || string_is(name, ".venv")
        || string_is(name, "__pycache__") || string_is(name, "desktop.ini")
        || string_is(name, "thumbs.db")
}

/// Lexicographic order on names, by character value: the usual "ascending"
/// order that listings are reported in.
pub open spec fn lex_le(a: Seq<char>, b: Seq<char>) -> bool
    decreases a.len(),
{
    if a.len() == 0 {
        true
    } else if b.len() == 0 {
        false
    } else if a[0] < b[0] {
        true
    } else if b[0] < a[0] {
        false
    } else {
        lex_le(a.skip(1), b.skip(1))
    }
}

/// Strict lexicographic order.
pub open spec fn lex_lt(a: Seq<char>, b: Seq<char>) -> bool {
    lex_le(a, b) && a != b
}

/// The order is total: one of the two directions always holds.
pub proof fn lemma_lex_le_total(a: Seq<char>, b: Seq<char>)
    ensures
        lex_le(a, b) || lex_le(b, a),
    decreases a.len(),
{
    if a.len() == 0 || b.len() == 0 {
    } else if a[0] == b[0] {
        lemma_lex_le_total(a.skip(1), b.skip(1));
    }
}

/// The order is antisymmetric: mutual order means equality.
pub proof fn lemma_lex_le_antisymmetric(a: Seq<char>, b: Seq<char>)
    requires
        lex_le(a, b),
        lex_le(b, a),
    ensures
        a == b,
    decreases a.len(),
{
    if a.len() == 0 {
        assert(b.len() == 0);
        assert(a =~= b);
    } else {
        assert(a[0] == b[0]);
        lemma_lex_le_antisymmetric(a.skip(1), b.skip(1));
        assert(a =~= a.skip(1).insert(0, a[0]));
        assert(b =~= b.skip(1).insert(0, b[0]));
    }
}

/// The order is transitive.
pub proof fn lemma_lex_le_transitive(a: Seq<char>, b: Seq<char>, c: Seq<char>)
    requires
        lex_le(a, b),
        lex_le(b, c),
    ensures
        lex_le(a, c),
    decreases a.len(),
{
    if a.len() == 0 || b.len() == 0 || c.len() == 0 {
    } else if a[0] == b[0] && b[0] == c[0] {
        lemma_lex_le_transitive(a.skip(1), b.skip(1), c.skip(1));
    }
}

/// Decides the lexicographic order on two names.
pub fn string_le(a: &String, b: &String) -> (r: bool)
    ensures
        r == lex_le(a@, b@),
{
    let sa = a.as_str();
    let sb = b.as_str();
    let alen = sa.unicode_len();
    let blen = sb.unicode_len();
    let mut i: usize = 0;
    proof {
        assert(a@.skip(0) =~= a@);
        assert(b@.skip(0) =~= b@);
    }
    while i < alen && i < blen
        invariant
            i <= alen,
            i <= blen,
            alen == a@.len(),
            blen == b@.len(),
            sa@ == a@,
            sb@ == b@,
            lex_le(a@, b@) == lex_le(a@.skip(i as int), b@.skip(i as int)),
        decreases alen - i,
    {
        let ca = sa.get_char(i);
        let cb = sb.get_char(i);
        if ca != cb {
            return ca < cb;
        }
        i = i + 1;
        proof {
            assert(a@.skip(i - 1).skip(1) =~= a@.skip(i as int));
            assert(b@.skip(i - 1).skip(1) =~= b@.skip(i as int));
        }
    }
    alen <= blen
}

/// Decides the strict lexicographic order on two names.
pub fn string_lt(a: &String, b: &String) -> (r: bool)
    ensures
        r == lex_lt(a@, b@),
{
    string_le(a, b) && !a.eq(b)
}

/// The characters of each name in a listing.
pub open spec fn views(s: Seq<String>) -> Seq<Seq<char>> {
    Seq::new(s.len(), |i: int| s[i]@)
}

/// Whether some name in `s` reads `x`.
pub open spec fn has_view(s: Seq<String>, x: Seq<char>) -> bool {
    exists|k: int| 0 <= k < s.len() && s[k]@ == x
}

/// Strictly ascending lexicographic order: sorted, with no repeats.
pub open spec fn strictly_sorted(s: Seq<Seq<char>>) -> bool {
    forall|i: int, j: int| 0 <= i < j < s.len() ==> lex_lt(s[i], s[j])
}

/// A run of names in strictly ascending order is determined by what it
/// holds: two such runs holding the same names are the same run.  The
/// sorted report of a listing's offending names is therefore unique.
pub proof fn lemma_strictly_sorted_unique(a: Seq<Seq<char>>, b: Seq<Seq<char>>)
    requires
        strictly_sorted(a),
        strictly_sorted(b),
        forall|x: Seq<char>| a.contains(x) <==> b.contains(x),
    ensures
        a == b,
    decreases a.len(),
{
    if a.len() == 0 {
        if b.len() > 0 {
            assert(b.contains(b[0]));
            assert(a.contains(b[0]));
        }
        assert(a =~= b);
    } else {
        assert(a.contains(a[0]));
        assert(b.contains(a[0]));
        assert(b.contains(b[0]));
        assert(a.contains(b[0]));
        if a[0] != b[0] {
            // each head occurs strictly after the other's: impossible
            let j = choose|j: int| 0 <= j < b.len() && b[j] == a[0];
            let i = choose|i: int| 0 <= i < a.len() && a[i] == b[0];
            assert(lex_lt(b[0], b[j]));
            assert(lex_lt(a[0], a[i]));
            lemma_lex_le_antisymmetric(a[0], b[0]);
        }
        let ta = a.drop_first();
        let tb = b.drop_first();
        assert forall|x: Seq<char>| ta.contains(x) implies tb.contains(x) by {
            let k = choose|k: int| 0 <= k < ta.len() && ta[k] == x;
            assert(a[k + 1] == x);
            assert(a.contains(x));
            assert(b.contains(x));
            let m = choose|m: int| 0 <= m < b.len() && b[m] == x;
            assert(lex_lt(a[0], a[k + 1]));
            if m == 0 {
                assert(b[0] == a[0]);
            } else {
                assert(tb[m - 1] == x);
            }
        }
        assert forall|x: Seq<char>| tb.contains(x) implies ta.contains(x) by {
            let k = choose|k: int| 0 <= k < tb.len() && tb[k] == x;
            assert(b[k + 1] == x);
            assert(b.contains(x));
            assert(a.contains(x));
            let m = choose|m: int| 0 <= m < a.len() && a[m] == x;
            assert(lex_lt(b[0], b[k + 1]));
            if m == 0 {
                assert(a[0] == b[0]);
            } else {
                assert(ta[m - 1] == x);
            }
        }
        lemma_strictly_sorted_unique(ta, tb);
        assert(a =~= ta.insert(0, a[0]));
        assert(b =~= tb.insert(0, b[0]));
    }
}

/// Whether `x` is the case-folded form of some name in `names` and is not
/// on the allow-list: the kind of entry that blocks a deletion.
pub open spec fn offending(names: Seq<String>, x: Seq<char>) -> bool {
    !allowlisted(x) && exists|i: int| 0 <= i < names.len() && x == lower(names[i]@)
}

/// Places `x` at its ordered position, unless an equal name is already held.
fn insert_unique_sorted(r: &mut Vec<String>, x: String)
    requires
        strictly_sorted(views(old(r)@)),
    ensures
        strictly_sorted(views(final(r)@)),
        forall|v: Seq<char>| has_view(final(r)@, v) <==> has_view(old(r)@, v) || v == x@,
{
    let mut p: usize = 0;
    while p < r.len() && string_lt(&r[p], &x)
        invariant
            p <= r@.len(),
            strictly_sorted(views(r@)),
            r@ == old(r)@,
            forall|k: int| 0 <= k < p ==> lex_lt(r@[k]@, x@),
        decreases r@.len() - p,
    {
        p = p + 1;
    }
    if p < r.len() && string_is(&x, r[p].as_str()) {
        // already present: a listing reports each name once
        proof {
            assert(has_view(r@, x@));
        }
        return ;
    }
    proof {
        if p < r@.len() {
            // not below x and not equal to it: strictly above
            lemma_lex_le_total(r@[p as int]@, x@);
            assert(lex_lt(x@, r@[p as int]@));
        }
        assert(forall|k: int|
            p <= k < r@.len() ==> #[trigger] lex_lt(x@, r@[k]@)) by {
            if p < r@.len() {
                assert forall|k: int| p <= k < r@.len() implies #[trigger] lex_lt(
                    x@,
                    r@[k]@,
                ) by {
                    if k > p {
                        assert(views(r@)[p as int] == r@[p as int]@);
                        assert(views(r@)[k] == r@[k]@);
                        assert(lex_lt(views(r@)[p as int], views(r@)[k]));
                        lemma_lex_le_transitive(x@, r@[p as int]@, r@[k]@);
                        if x@ == r@[k]@ {
                            lemma_lex_le_antisymmetric(r@[p as int]@, r@[k]@);
                        }
                    }
                }
            }
        }
    }
    let ghost before = r@;
    proof {
        before.insert_ensures(p as int, x);
    }
    r.insert(p, x);
    proof {
        assert forall|i: int, j: int|
            0 <= i < j < views(r@).len() implies lex_lt(views(r@)[i], views(r@)[j]) by {
            if j < p {
                assert(lex_lt(views(before)[i], views(before)[j]));
            } else if i < p && j == p {
                assert(lex_lt(before[i]@, x@));
            } else if i < p && j > p {
                assert(lex_lt(before[i]@, x@));
                assert(lex_lt(x@, before[j - 1]@));
                lemma_lex_le_transitive(before[i]@, x@, before[j - 1]@);
                if before[i]@ == before[j - 1]@ {
                    lemma_lex_le_antisymmetric(x@, before[j - 1]@);
                }
            } else if i == p {
                assert(lex_lt(x@, before[j - 1]@));
            } else {
                assert(lex_lt(views(before)[i - 1], views(before)[j - 1]));
            }
            assert(views(r@)[i] == r@[i]@);
            assert(views(r@)[j] == r@[j]@);
        }
        assert forall|v: Seq<char>|
            has_view(r@, v) <==> has_view(before, v) || v == x@ by {
            if has_view(before, v) {
                let k = choose|k: int| 0 <= k < before.len() && before[k]@ == v;
                if k < p {
                    assert(r@[k]@ == v);
                } else {
                    assert(r@[k + 1]@ == v);
                }
            }
            if v == x@ {
                assert(r@[p as int]@ == v);
            }
            if has_view(r@, v) {
                let k = choose|k: int| 0 <= k < r@.len() && r@[k]@ == v;
                if k < p {
                    assert(before[k]@ == v);
                } else if k > p {
                    assert(before[k - 1]@ == v);
                }
            }
        }
    }
}

/// Collects the offending names of a listing: every name is folded to lower
/// case, allow-listed names are dropped, and what remains is returned
/// sorted ascending, each name once.
pub fn offending_names(names: &Vec<String>) -> (r: Vec<String>)
    ensures
        strictly_sorted(views(r@)),
        forall|k: int| 0 <= k < r@.len() ==> offending(names@, r@[k]@),
        forall|x: Seq<char>| offending(names@, x) ==> has_view(r@, x),
{
    let mut r: Vec<String> = Vec::new();
    let mut i: usize = 0;
    while i < names.len()
        invariant
            i <= names@.len(),
            strictly_sorted(views(r@)),
            forall|k: int| 0 <= k < r@.len() ==> offending(names@.subrange(0, i as int), r@[k]@),
            forall|x: Seq<char>|
                offending(names@.subrange(0, i as int), x) ==> has_view(r@, x),
        decreases names@.len() - i,
    {
        let low = to_lowercase(&names[i]);
        if !is_allowlisted(&low) {
            let ghost prev = r@;
            insert_unique_sorted(&mut r, low);
            proof {
                assert(names@.subrange(0, i + 1).last() == names@[i as int]);
                assert(names@.subrange(0, i + 1).drop_last() =~= names@.subrange(0, i as int));
                assert forall|k: int| 0 <= k < r@.len() implies offending(
                    names@.subrange(0, i + 1),
                    r@[k]@,
                ) by {
                    assert(has_view(r@, r@[k]@));
                    if offending(names@.subrange(0, i as int), r@[k]@) {
                        let m = choose|m: int|
                            0 <= m < i && r@[k]@ == lower(
                                (#[trigger] names@.subrange(0, i as int)[m])@,
                            );
                        assert(names@.subrange(0, i + 1)[m]@ == names@.subrange(
                            0,
                            i as int,
                        )[m]@);
                    } else {
                        assert(r@[k]@ == lower(names@[i as int]@));
                        assert(names@.subrange(0, i + 1)[i as int] == names@[i as int]);
                    }
                }
                assert forall|x: Seq<char>|
                    offending(names@.subrange(0, i + 1), x) implies has_view(r@, x) by {
                    let m = choose|m: int|
                        0 <= m < i + 1 && x == lower((#[trigger] names@.subrange(0, i + 1)[m])@);
                    if m < i {
                        assert(names@.subrange(0, i as int)[m] == names@.subrange(
                            0,
                            i + 1,
                        )[m]);
                        assert(offending(names@.subrange(0, i as int), x));
                    } else {
                        assert(x == lower(names@[i as int]@));
                    }
                }
            }
        } else {
            proof {
                assert forall|x: Seq<char>|
                    offending(names@.subrange(0, i + 1), x) implies has_view(r@, x) by {
                    let m = choose|m: int|
                        0 <= m < i + 1 && x == lower((#[trigger] names@.subrange(0, i + 1)[m])@);
                    if m < i {
                        assert(names@.subrange(0, i as int)[m] == names@.subrange(
                            0,
                            i + 1,
                        )[m]);
                        assert(offending(names@.subrange(0, i as int), x));
                    } else {
                        assert(x == lower(names@[i as int]@));
                        assert(allowlisted(x));
                    }
                }
                assert forall|k: int| 0 <= k < r@.len() implies offending(
                    names@.subrange(0, i + 1),
                    r@[k]@,
                ) by {
                    let m = choose|m: int|
                        0 <= m < i && r@[k]@ == lower(
                            (#[trigger] names@.subrange(0, i as int)[m])@,
                        );
                    assert(names@.subrange(0, i + 1)[m]@ == names@.subrange(0, i as int)[m]@);
                }
            }
        }
        i = i + 1;
    }
    proof {
        assert(names@.subrange(0, names@.len() as int) =~= names@);
    }
    r
}

/// Whether every name of a listing, folded to lower case, is on the
/// allow-list.  An empty listing trivially qualifies.
pub open spec fn all_allowlisted(names: Seq<String>) -> bool {
    forall|i: int| 0 <= i < names.len() ==> allowlisted(lower(names[i]@))
}

/// The designated "never delete" path, one component per element: a
/// user-kept folder that the tool must leave alone whatever it holds.
/// Held against the canonical absolute form of a path.  Fixed by design;
/// whether it should be configurable instead is an open question.
pub open spec fn is_sentinel(canonical_segments: Seq<String>) -> bool {
    views(canonical_segments) =~= seq!["Users"@, "alexwlchan"@, "Desktop"@, "do not back up"@]
}

/// Decides whether a path, in canonical absolute form, is the designated
/// "never delete" path.
pub fn matches_sentinel(canonical_segments: &Vec<String>) -> (r: bool)
    ensures
        r == is_sentinel(canonical_segments@),
{
    let r = canonical_segments.len() == 4 && string_is(&canonical_segments[0], "Users")
        && string_is(&canonical_segments[1], "alexwlchan")
        && string_is(&canonical_segments[2], "Desktop")
        && string_is(&canonical_segments[3], "do not back up");
    proof {
        if r {
            assert(views(canonical_segments@) =~= seq![
                "Users"@,
                "alexwlchan"@,
                "Desktop"@,
                "do not back up"@,
            ]);
        }
    }
    r
}

/// Whether some component of the path is literally named `.git`: the path
/// is then version-control metadata, or lies inside it.
pub open spec fn in_git_repository(segments: Seq<String>) -> bool {
    exists|i: int| 0 <= i < segments.len() && segments[i]@ == ".git"@
}

/// Returns true if this path or any ancestor is a `.git` folder, false
/// otherwise.  The path is given as its components, outermost first.
pub fn is_in_git_repository(segments: &Vec<String>) -> (r: bool)
    ensures
        r == in_git_repository(segments@),
{
    let mut i: usize = 0;
    while i < segments.len()
        invariant
            i <= segments@.len(),
            forall|k: int| 0 <= k < i ==> segments@[k]@ != ".git"@,
        decreases segments@.len() - i,
    {
        if string_is(&segments[i], ".git") {
            return true;
        }
        i = i + 1;
    }
    false
}

/// What was observed about a directory: its path and, when it could be
/// read, the names of the entries directly inside it.  The caller gathers
/// these from the filesystem and hands them over as plain values.
pub struct DirSnapshot {
    /// The components of the directory's path, as the path was given.
    pub segments: Vec<String>,
    /// The components of the canonical absolute form of the same path,
    /// used only to recognise the "never delete" path.  When the path
    /// cannot be resolved, the components as given.
    pub canonical_segments: Vec<String>,
    /// The names of the entries directly inside the directory, in any
    /// order, or the fault that prevented listing them.
    pub listing: Result<Vec<String>, String>,
}

/// DeleteDecision describes whether a directory can be deleted.
#[derive(Debug)]
pub enum DeleteDecision {
    CanDelete,
    CannotDelete(Reason),
}

/// Reason explains why a directory cannot be deleted.
#[derive(Debug)]
pub enum Reason {
    /// The directory holds entries that are not junk; their case-folded
    /// names are carried, sorted ascending, each once.
    NotEmpty(Vec<String>),
    /// The directory is, or lies inside, a `.git` folder.
    InGitRepository,
    /// The directory's contents could not be listed; the fault is carried.
    CannotListContents(String),
    /// The directory is the designated "never delete" path.
    ProtectedPath,
}

/// Folding case leaves an allow-listed name as it is: the list holds
/// lower-case names only.
pub proof fn lemma_allowlisted_lower_fixed(l: Seq<char>)
    requires
        allowlisted(l),
    ensures
        lower(l) == l,
{
    reveal_strlit(".ds_store");
    reveal_strlit(".ipynb_checkpoints");
    reveal_strlit(".jekyll-cache");
    reveal_strlit(".venv");
    reveal_strlit("__pycache__");
    reveal_strlit("desktop.ini");
    reveal_strlit("thumbs.db");
    assert(lower(l) =~= l);
}

/// Case-insensitivity of the junk test: a name counts as junk exactly
/// when it reads as an allow-listed name up to ASCII case.
pub proof fn lemma_case_insensitive(name: Seq<char>)
    ensures
        allowlisted(lower(name)) <==> exists|l: Seq<char>|
            allowlisted(l) && lower(name) == lower(l),
{
    if allowlisted(lower(name)) {
        lemma_allowlisted_lower_fixed(lower(name));
        assert(allowlisted(lower(name)) && lower(name) == lower(lower(name)));
    }
    if exists|l: Seq<char>| allowlisted(l) && lower(name) == lower(l) {
        let l = choose|l: Seq<char>| allowlisted(l) && lower(name) == lower(l);
        lemma_allowlisted_lower_fixed(l);
    }
}

/// The decimal digit `d` as a character, for `0 <= d <= 9`.
pub open spec fn digit_char(d: int) -> char {
    (48 + d) as char
}

/// The decimal rendering of a number, most significant digit first, with
/// no leading zeroes (a lone `0` for zero).
pub open spec fn dec_str(n: int) -> Seq<char>
    recommends
        0 <= n,
    decreases n,
{
    if n < 10 {
        seq![digit_char(n)]
    } else {
        dec_str(n / 10).push(digit_char(n % 10))
    }
}

/// Renders a number in decimal.
pub fn usize_to_decimal(n: usize) -> (r: String)
    ensures
        r@ == dec_str(n as int),
    decreases n,
{
    let digits = "0123456789";
    proof {
        reveal_strlit("0123456789");
    }
    if n < 10 {
        let piece = digits.substring_char(n, n + 1);
        let r = piece.to_owned();
        proof {
            assert(r@ =~= seq![digit_char(n as int)]);
        }
        r
    } else {
        let mut r = usize_to_decimal(n / 10);
        let d = n % 10;
        let piece = digits.substring_char(d, d + 1);
        r.append(piece);
        proof {
            assert(piece@ =~= seq![digit_char((n as int) % 10)]);
            assert(r@ =~= dec_str(n as int));
        }
        r
    }
}

/// One report line per entry name: a line break, a dash, the name.
pub open spec fn entry_lines(entries: Seq<String>) -> Seq<char>
    decreases entries.len(),
{
    if entries.len() == 0 {
        Seq::empty()
    } else {
        entry_lines(entries.drop_last()) + "\n  - "@ + entries.last()@
    }
}

/// The full report for a directory that is not empty: how many entries
/// block the deletion, then one line per name.
pub open spec fn not_empty_text(entries: Seq<String>) -> Seq<char> {
    "directory is not empty; contains "@ + dec_str(entries.len() as int) + (if entries.len()
        == 1 {
        " entry:"@
    } else {
        " entries:"@
    }) + entry_lines(entries)
}

impl Reason {
    /// The text of this reason, as [`Self::describe`] renders it.
    pub open spec fn text(&self) -> Seq<char> {
        match self {
            Reason::NotEmpty(entries) => not_empty_text(entries@),
            Reason::CannotListContents(fault) => "unable to list directory contents: "@ + fault@,
            Reason::InGitRepository => "directory is inside a .git repository"@,
            Reason::ProtectedPath => "directory is the designated never-delete folder"@,
        }
    }

    /// Renders the reason for a human: why the directory was not deleted.
    /// The entry names of a not-empty directory are listed in the order
    /// held, which [`can_be_deleted`] makes sorted ascending.
    pub fn describe(&self) -> (r: String)
        ensures
            r@ == self.text(),
    {
        match self {
            Reason::NotEmpty(entries) => {
                let mut r = String::from_str("directory is not empty; contains ");
                let count = usize_to_decimal(entries.len());
                r.append(count.as_str());
                if entries.len() == 1 {
                    r.append(" entry:");
                } else {
                    r.append(" entries:");
                }
                let ghost head = r@;
                let mut i: usize = 0;
                while i < entries.len()
                    invariant
                        i <= entries@.len(),
                        r@ == head + entry_lines(entries@.subrange(0, i as int)),
                    decreases entries@.len() - i,
                {
                    r.append("\n  - ");
                    r.append(entries[i].as_str());
                    i = i + 1;
                    proof {
                        assert(entries@.subrange(0, i as int).drop_last() =~= entries@.subrange(
                            0,
                            i - 1,
                        ));
                        assert(entries@.subrange(0, i as int).last() == entries@[i - 1]);
                    }
                }
                proof {
                    assert(entries@.subrange(0, entries@.len() as int) =~= entries@);
                }
                r
            },
            Reason::CannotListContents(fault) => {
                let mut r = String::from_str("unable to list directory contents: ");
                r.append(fault.as_str());
                r
            },
            Reason::InGitRepository => String::from_str("directory is inside a .git repository"),
            Reason::ProtectedPath => String::from_str(
                "directory is the designated never-delete folder",
            ),
        }
    }
}

/// can_be_deleted checks whether a directory can be deleted.
///
/// The rules, first match wins:
/// 1. the "never delete" path is refused;
/// 2. a path with a `.git` component is refused, since removing
///    subfolders of a `.git` directory breaks repository detection;
/// 3. a directory that could not be listed is refused, carrying the fault;
/// 4. otherwise the directory may be deleted exactly when every entry
///    name, folded to lower case, is on the allow-list; if some are not,
///    those names are carried, sorted ascending.
pub fn can_be_deleted(dir: &DirSnapshot) -> (d: DeleteDecision)
    ensures
        is_sentinel(dir.canonical_segments@) ==> d == DeleteDecision::CannotDelete(
            Reason::ProtectedPath,
        ),
        !is_sentinel(dir.canonical_segments@) && in_git_repository(dir.segments@)
            ==> d == DeleteDecision::CannotDelete(Reason::InGitRepository),
        dir.listing matches Err(f) ==> ((!is_sentinel(dir.canonical_segments@)
            && !in_git_repository(dir.segments@)) ==> (d matches DeleteDecision::CannotDelete(
            Reason::CannotListContents(m),
        ) && m == f)),
        dir.listing matches Ok(names) ==> ((!is_sentinel(dir.canonical_segments@)
            && !in_git_repository(dir.segments@)) ==> (d == DeleteDecision::CanDelete
            <==> all_allowlisted(names@))),
        dir.listing matches Ok(names) ==> ((!is_sentinel(dir.canonical_segments@)
            && !in_git_repository(dir.segments@) && !all_allowlisted(names@)) ==> (d
            matches DeleteDecision::CannotDelete(Reason::NotEmpty(off)) && {
            &&& strictly_sorted(views(off@))
            &&& off@.len() > 0
            &&& forall|k: int| 0 <= k < off@.len() ==> offending(names@, off@[k]@)
            &&& forall|x: Seq<char>| offending(names@, x) ==> has_view(off@, x)
        })),
{
    if matches_sentinel(&dir.canonical_segments) {
        return DeleteDecision::CannotDelete(Reason::ProtectedPath);
    }
    if is_in_git_repository(&dir.segments) {
        return DeleteDecision::CannotDelete(Reason::InGitRepository);
    }
    match &dir.listing {
        Err(fault) => DeleteDecision::CannotDelete(Reason::CannotListContents(fault.clone())),
        Ok(names) => {
            let offenders = offending_names(names);
            if offenders.len() == 0 {
                proof {
                    assert forall|i: int| 0 <= i < names@.len() implies allowlisted(
                        lower(names@[i]@),
                    ) by {
                        if !allowlisted(lower(names@[i]@)) {
                            assert(offending(names@, lower(names@[i]@)));
                        }
                    }
                }
                DeleteDecision::CanDelete
            } else {
                proof {
                    assert(offending(names@, offenders@[0]@));
                    let m = choose|m: int|
                        0 <= m < names@.len() && offenders@[0]@ == lower(names@[m]@);
                    assert(!allowlisted(lower(names@[m]@)));
                }
                DeleteDecision::CannotDelete(Reason::NotEmpty(offenders))
            }
        },
    }
}

} // verus!
