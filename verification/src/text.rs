//! Plain-text groundwork for the parsers: whitespace tokenization of a
//! neighbor-table line, splitting a string at every occurrence of a
//! separator, and joining lines back into one newline-terminated text.
//!
//! Each executable function is specified against a recursive spec function
//! over character sequences; the parsers' and the persistence layer's
//! contracts are stated in terms of those spec functions.

use vstd::prelude::*;
use vstd::string::StringExecFns;

verus! {

/// The values of a sequence of strings.
pub open spec fn string_views(s: Seq<String>) -> Seq<Seq<char>> {
    s.map_values(|x: String| x@)
}

pub broadcast proof fn lemma_string_views_len(s: Seq<String>)
    ensures
        #[trigger] string_views(s).len() == s.len(),
{
}

pub broadcast proof fn lemma_string_views_index(s: Seq<String>, i: int)
    requires
        0 <= i < s.len(),
    ensures
        #[trigger] string_views(s)[i] == s[i]@,
{
}

/// The two facts every reader of `string_views` needs: its length and its
/// elements.
pub broadcast group group_string_views {
    lemma_string_views_len,
    lemma_string_views_index,
}

/// The characters treated as whitespace when a line is tokenized.
pub open spec fn is_space(c: char) -> bool {
    c == ' ' || c == '\t' || c == '\r' || c == '\n'
}

fn is_space_char(c: char) -> (r: bool)
    ensures
        r == is_space(c),
{
    c == ' ' || c == '\t' || c == '\r' || c == '\n'
}

/// The whitespace-separated tokens of `s`, in order: the maximal runs of
/// non-whitespace characters.
pub open spec fn tokens(s: Seq<char>) -> Seq<Seq<char>>
    decreases s.len(),
{
    if s.len() == 0 {
        Seq::empty()
    } else if is_space(s[0]) {
        tokens(s.drop_first())
    } else {
        let rest = tokens(s.drop_first());
        if s.len() > 1 && !is_space(s[1]) {
            seq![seq![s[0]] + rest[0]] + rest.drop_first()
        } else {
            seq![seq![s[0]]] + rest
        }
    }
}

/// When a token starts at the front of `s` — the first `k` characters are
/// not whitespace and the next one, if any, is — the tokens of `s` are that
/// token followed by the tokens of the remainder.
pub proof fn lemma_tokens_take(s: Seq<char>, k: int)
    requires
        1 <= k <= s.len(),
        forall|m: int| 0 <= m < k ==> !is_space(#[trigger] s[m]),
        k == s.len() || is_space(s[k]),
    ensures
        tokens(s) == seq![s.take(k)] + tokens(s.skip(k)),
    decreases s.len(),
{
    let t = s.drop_first();
    if k == 1 {
        if s.len() == 1 {
            assert(tokens(s) =~~= seq![s.take(1)] + tokens(s.skip(1)));
        } else {
            assert(is_space(s[1]));
            assert(t =~= s.skip(1));
            assert(seq![s[0]] =~= s.take(1));
            assert(tokens(s) =~~= seq![s.take(1)] + tokens(s.skip(1)));
        }
    } else {
        assert forall|m: int| 0 <= m < k - 1 implies !is_space(#[trigger] t[m]) by {
            assert(t[m] == s[m + 1]);
        }
        assert(k - 1 == t.len() || is_space(t[k - 1]));
        lemma_tokens_take(t, k - 1);
        let rest = tokens(t);
        assert(rest == seq![t.take(k - 1)] + tokens(t.skip(k - 1)));
        assert(rest[0] == t.take(k - 1));
        assert(seq![s[0]] + t.take(k - 1) =~= s.take(k));
        assert(rest.drop_first() =~= tokens(t.skip(k - 1)));
        assert(t.skip(k - 1) =~= s.skip(k));
        assert(!is_space(s[1]));
        assert(tokens(s) =~~= seq![s.take(k)] + tokens(s.skip(k)));
    }
}

/// Splits `line` into its whitespace-separated tokens, in order.
pub fn tokenize(line: &str) -> (r: Vec<String>)
    ensures
        string_views(r@) == tokens(line@),
{
    let len = line.unicode_len();
    let mut r: Vec<String> = Vec::new();
    let mut i: usize = 0;
    proof {
        assert(line@.skip(0) =~= line@);
        assert(string_views(r@) =~= Seq::<Seq<char>>::empty());
    }
    while i < len
        invariant
            len == line@.len(),
            i <= len,
            string_views(r@) + tokens(line@.skip(i as int)) == tokens(line@),
        decreases len - i,
    {
        let c = line.get_char(i);
        if is_space_char(c) {
            proof {
                let u = line@.skip(i as int);
                assert(u[0] == line@[i as int]);
                assert(u.drop_first() =~= line@.skip(i as int + 1));
            }
            i += 1;
        } else {
            let start = i;
            let mut j = i + 1;
            while j < len && !is_space_char(line.get_char(j))
                invariant
                    len == line@.len(),
                    start < j <= len,
                    forall|m: int| start <= m < j ==> !is_space(#[trigger] line@[m]),
                decreases len - j,
            {
                j += 1;
            }
            let ghost u = line@.skip(start as int);
            proof {
                assert forall|m: int| 0 <= m < j - start implies !is_space(#[trigger] u[m]) by {
                    assert(u[m] == line@[start + m]);
                }
                if (j as int) < (len as int) {
                    assert(u[j - start] == line@[j as int]);
                }
                lemma_tokens_take(u, j as int - start as int);
                assert(u.take(j as int - start as int) =~= line@.subrange(start as int, j as int));
                assert(u.skip(j as int - start as int) =~= line@.skip(j as int));
            }
            let tok: String = line.substring_char(start, j).to_owned();
            let ghost r0 = r@;
            r.push(tok);
            proof {
                assert(string_views(r@) =~= string_views(r0) + seq![tok@]);
                assert(string_views(r0) + (seq![u.take(j as int - start as int)] + tokens(
                    line@.skip(j as int),
                )) =~= (string_views(r0) + seq![tok@]) + tokens(line@.skip(j as int)));
            }
            i = j;
        }
    }
    proof {
        assert(line@.skip(len as int) =~= Seq::<char>::empty());
        assert(string_views(r@) =~= string_views(r@) + tokens(line@.skip(len as int)));
    }
    r
}

/// `s` split at every occurrence of `sep`, in order, keeping empty pieces:
/// one piece more than there are separators, and no piece contains `sep`.
pub open spec fn split_on(s: Seq<char>, sep: char) -> Seq<Seq<char>>
    decreases s.len(),
{
    if s.len() == 0 {
        seq![Seq::<char>::empty()]
    } else if s[0] == sep {
        seq![Seq::<char>::empty()] + split_on(s.drop_first(), sep)
    } else {
        let rest = split_on(s.drop_first(), sep);
        seq![seq![s[0]] + rest[0]] + rest.drop_first()
    }
}

/// There is always at least one piece.
pub proof fn lemma_split_on_len(s: Seq<char>, sep: char)
    ensures
        split_on(s, sep).len() >= 1,
    decreases s.len(),
{
    if s.len() > 0 {
        lemma_split_on_len(s.drop_first(), sep);
    }
}

/// When the first `k` characters of `s` are free of `sep`, the split starts
/// with exactly those characters: it is all of `s` when no separator occurs,
/// and otherwise that first piece followed by the split of what comes after
/// the separator.
pub proof fn lemma_split_on_at(s: Seq<char>, sep: char, k: int)
    requires
        0 <= k <= s.len(),
        forall|m: int| 0 <= m < k ==> #[trigger] s[m] != sep,
        k == s.len() || s[k] == sep,
    ensures
        k == s.len() ==> split_on(s, sep) == seq![s],
        k < s.len() ==> split_on(s, sep) == seq![s.take(k)] + split_on(s.skip(k + 1), sep),
    decreases s.len(),
{
    lemma_split_on_len(s, sep);
    if k == 0 {
        if s.len() == 0 {
            assert(split_on(s, sep) =~~= seq![s]);
        } else {
            assert(s[0] == sep);
            assert(s.take(0) =~= Seq::<char>::empty());
            assert(s.skip(1) =~= s.drop_first());
            assert(split_on(s, sep) =~~= seq![s.take(0)] + split_on(s.skip(1), sep));
        }
    } else {
        let t = s.drop_first();
        assert forall|m: int| 0 <= m < k - 1 implies #[trigger] t[m] != sep by {
            assert(t[m] == s[m + 1]);
        }
        assert(k - 1 == t.len() || t[k - 1] == sep);
        lemma_split_on_at(t, sep, k - 1);
        lemma_split_on_len(t, sep);
        let rest = split_on(t, sep);
        if k == s.len() {
            assert(rest == seq![t]);
            assert(seq![s[0]] + rest[0] =~= s);
            assert(split_on(s, sep) =~= seq![s]);
        } else {
            assert(rest == seq![t.take(k - 1)] + split_on(t.skip(k), sep));
            assert(rest[0] == t.take(k - 1));
            assert(seq![s[0]] + t.take(k - 1) =~= s.take(k));
            assert(rest.drop_first() =~= split_on(t.skip(k), sep));
            assert(t.skip(k) =~= s.skip(k + 1));
            assert(split_on(s, sep) =~= seq![s.take(k)] + split_on(s.skip(k + 1), sep));
        }
    }
}

/// Splits `s` at every occurrence of `sep`, in order, keeping empty pieces.
pub fn split_char(s: &str, sep: char) -> (r: Vec<String>)
    ensures
        string_views(r@) == split_on(s@, sep),
{
    let len = s.unicode_len();
    let mut r: Vec<String> = Vec::new();
    let mut pos: usize = 0;
    proof {
        assert(s@.skip(0) =~= s@);
        assert(string_views(r@) =~= Seq::<Seq<char>>::empty());
    }
    loop
        invariant
            len == s@.len(),
            pos <= len,
            string_views(r@) + split_on(s@.skip(pos as int), sep) == split_on(s@, sep),
        decreases len - pos + 1,
    {
        let mut j = pos;
        while j < len && s.get_char(j) != sep
            invariant
                len == s@.len(),
                pos <= j <= len,
                forall|m: int| pos <= m < j ==> #[trigger] s@[m] != sep,
            decreases len - j,
        {
            j += 1;
        }
        let ghost u = s@.skip(pos as int);
        proof {
            assert forall|m: int| 0 <= m < j - pos implies #[trigger] u[m] != sep by {
                assert(u[m] == s@[pos + m]);
            }
            if (j as int) < (len as int) {
                assert(u[j - pos] == s@[j as int]);
            }
            lemma_split_on_at(u, sep, j as int - pos as int);
            assert(u.take(j as int - pos as int) =~= s@.subrange(pos as int, j as int));
        }
        let piece: String = s.substring_char(pos, j).to_owned();
        let ghost r0 = r@;
        r.push(piece);
        proof {
            assert(string_views(r@) =~= string_views(r0) + seq![piece@]);
        }
        if j == len {
            proof {
                assert(string_views(r0) + seq![u] =~= string_views(r@));
                assert(string_views(r@) =~= split_on(s@, sep));
            }
            return r;
        }
        proof {
            assert(u.skip(j as int - pos as int + 1) =~= s@.skip(j as int + 1));
            assert(string_views(r0) + (seq![u.take(j as int - pos as int)] + split_on(
                s@.skip(j as int + 1),
                sep,
            )) =~= (string_views(r0) + seq![piece@]) + split_on(s@.skip(j as int + 1), sep));
        }
        pos = j + 1;
    }
}

/// Lines joined into one text, a newline after every line (the final line
/// included).
pub open spec fn join_terminated(ls: Seq<Seq<char>>, sep: char) -> Seq<char>
    decreases ls.len(),
{
    if ls.len() == 0 {
        Seq::empty()
    } else {
        ls[0] + seq![sep] + join_terminated(ls.drop_first(), sep)
    }
}

/// Splitting a terminated join recovers the lines, plus the empty piece
/// after the final separator — provided no line contains the separator.
pub proof fn lemma_split_join(ls: Seq<Seq<char>>, sep: char)
    requires
        forall|i: int| 0 <= i < ls.len() ==> sep_free(#[trigger] ls[i], sep),
    ensures
        split_on(join_terminated(ls, sep), sep) == ls.push(Seq::<char>::empty()),
    decreases ls.len(),
{
    let s = join_terminated(ls, sep);
    if ls.len() == 0 {
        assert(split_on(s, sep) =~= ls.push(Seq::<char>::empty()));
    } else {
        let piece = ls[0];
        let rest = ls.drop_first();
        assert forall|i: int| 0 <= i < rest.len() implies sep_free(#[trigger] rest[i], sep) by {
            assert(rest[i] == ls[i + 1]);
        }
        lemma_split_join(rest, sep);
        assert forall|m: int| 0 <= m < piece.len() implies #[trigger] s[m] != sep by {
            assert(s[m] == piece[m]);
        }
        assert(s[piece.len() as int] == sep);
        lemma_split_on_at(s, sep, piece.len() as int);
        assert(s.take(piece.len() as int) =~= piece);
        assert(s.skip(piece.len() as int + 1) =~= join_terminated(rest, sep));
        assert(seq![piece] + rest.push(Seq::<char>::empty()) =~= ls.push(Seq::<char>::empty()));
    }
}

/// No character of `s` is `sep`.
pub open spec fn sep_free(s: Seq<char>, sep: char) -> bool {
    forall|i: int| 0 <= i < s.len() ==> #[trigger] s[i] != sep
}

/// Concatenation keeps freedom of `sep`.
pub proof fn lemma_sep_free_concat(a: Seq<char>, b: Seq<char>, sep: char)
    requires
        sep_free(a, sep),
        sep_free(b, sep),
    ensures
        sep_free(a + b, sep),
{
    assert forall|i: int| 0 <= i < (a + b).len() implies #[trigger] (a + b)[i] != sep by {
        if i < a.len() {
            assert((a + b)[i] == a[i]);
        } else {
            assert((a + b)[i] == b[i - a.len()]);
        }
    }
}

/// Joins `lines` into one text with a newline after every line.
pub fn join_lines(lines: &Vec<String>) -> (r: String)
    ensures
        r@ == join_terminated(string_views(lines@), '\n'),
{
    let ghost ls = string_views(lines@);
    let mut r = String::new();
    let n = lines.len();
    let mut i: usize = 0;
    proof {
        assert(ls.skip(0) =~= ls);
    }
    while i < n
        invariant
            n == lines@.len(),
            ls == string_views(lines@),
            ls.len() == n,
            i <= n,
            r@ + join_terminated(ls.skip(i as int), '\n') == join_terminated(ls, '\n'),
        decreases n - i,
    {
        let ghost r0 = r@;
        r.append(lines[i].as_str());
        r.append("\n");
        proof {
            reveal_strlit("\n");
            let u = ls.skip(i as int);
            assert(u[0] == ls[i as int]);
            assert(u.drop_first() =~= ls.skip(i as int + 1));
            assert("\n"@ =~= seq!['\n']);
            assert(r@ + join_terminated(ls.skip(i as int + 1), '\n') =~= r0 + join_terminated(
                u,
                '\n',
            ));
        }
        i += 1;
    }
    proof {
        assert(ls.skip(n as int) =~= Seq::<Seq<char>>::empty());
    }
    r
}

} // verus!
