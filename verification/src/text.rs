//! Verified string helpers: equality, lexicographic order, token
//! replacement and whitespace splitting.
use vstd::prelude::*;

verus! {

/// Character-wise string equality.
pub fn str_eq(a_left: &str, a_right: &str) -> (r: bool)
    ensures
        r == (a_left@ == a_right@),
{
    let n = a_left.unicode_len();
    if n != a_right.unicode_len() {
        return false;
    }
    let mut i: usize = 0;
    while i < n
        invariant
            i <= n,
            n == a_left@.len(),
            n == a_right@.len(),
            forall|j: int| 0 <= j < i ==> a_left@[j] == a_right@[j],
        decreases n - i,
    {
        if a_left.get_char(i) != a_right.get_char(i) {
            return false;
        }
        i = i + 1;
    }
    proof {
        assert(a_left@ =~= a_right@);
    }
    true
}

/// Strict lexicographic order on character sequences, by code point.
pub open spec fn lex_lt(a: Seq<char>, b: Seq<char>) -> bool
    decreases a.len(),
{
    if b.len() == 0 {
        false
    } else if a.len() == 0 {
        true
    } else if a[0] != b[0] {
        (a[0] as u32) < (b[0] as u32)
    } else {
        lex_lt(a.drop_first(), b.drop_first())
    }
}

/// Equal prefixes do not decide the order: it is settled past them.
proof fn lemma_lex_lt_skip(a: Seq<char>, b: Seq<char>, i: int)
    requires
        0 <= i <= a.len(),
        i <= b.len(),
        forall|j: int| 0 <= j < i ==> a[j] == b[j],
    ensures
        lex_lt(a, b) == lex_lt(a.skip(i), b.skip(i)),
    decreases i,
{
    if i > 0 {
        assert(a[0] == b[0]);
        lemma_lex_lt_skip(a.drop_first(), b.drop_first(), i - 1);
        assert(a.drop_first().skip(i - 1) =~= a.skip(i));
        assert(b.drop_first().skip(i - 1) =~= b.skip(i));
    } else {
        assert(a.skip(0) =~= a);
        assert(b.skip(0) =~= b);
    }
}

/// Strict lexicographic order on strings, by code point.
pub fn str_lex_lt(a_left: &str, a_right: &str) -> (r: bool)
    ensures
        r == lex_lt(a_left@, a_right@),
{
    let al = a_left.unicode_len();
    let bl = a_right.unicode_len();
    let mut i: usize = 0;
    loop
        invariant
            i <= al,
            i <= bl,
            al == a_left@.len(),
            bl == a_right@.len(),
            forall|j: int| 0 <= j < i ==> a_left@[j] == a_right@[j],
        decreases al - i,
    {
        proof {
            lemma_lex_lt_skip(a_left@, a_right@, i as int);
        }
        if i >= bl {
            return false;
        }
        if i >= al {
            return true;
        }
        let ca = a_left.get_char(i);
        let cb = a_right.get_char(i);
        if ca != cb {
            assert(a_left@.skip(i as int)[0] == ca && a_right@.skip(i as int)[0] == cb);
            return (ca as u32) < (cb as u32);
        }
        i = i + 1;
    }
}

/// Equal code points are the same character.
pub proof fn lemma_char_code_injective(a: char, b: char)
    requires
        (a as u32) == (b as u32),
    ensures
        a == b,
{
}

/// Nothing is lexicographically below itself.
pub proof fn lemma_lex_irreflexive(a: Seq<char>)
    ensures
        !lex_lt(a, a),
    decreases a.len(),
{
    if a.len() > 0 {
        lemma_lex_irreflexive(a.drop_first());
    }
}

/// The lexicographic order is transitive.
pub proof fn lemma_lex_transitive(a: Seq<char>, b: Seq<char>, c: Seq<char>)
    requires
        lex_lt(a, b),
        lex_lt(b, c),
    ensures
        lex_lt(a, c),
    decreases a.len() + b.len() + c.len(),
{
    if a.len() == 0 {
        assert(c.len() > 0);
    } else {
        assert(b.len() > 0 && c.len() > 0);
        if a[0] == b[0] && b[0] == c[0] {
            lemma_lex_transitive(a.drop_first(), b.drop_first(), c.drop_first());
        }
    }
}

/// Two distinct character sequences are lexicographically comparable.
pub proof fn lemma_lex_connected(a: Seq<char>, b: Seq<char>)
    requires
        a != b,
    ensures
        lex_lt(a, b) || lex_lt(b, a),
    decreases a.len(),
{
    if a.len() == 0 {
        assert(b.len() > 0) by {
            if b.len() == 0 {
                assert(a =~= b);
            }
        };
    } else if b.len() == 0 {
    } else if a[0] != b[0] {
        if (a[0] as u32) == (b[0] as u32) {
            lemma_char_code_injective(a[0], b[0]);
        }
    } else {
        assert(a.drop_first() != b.drop_first()) by {
            if a.drop_first() == b.drop_first() {
                assert(a.drop_first().len() == b.drop_first().len());
                assert(a.len() == b.len());
                assert forall|i: int| 1 <= i < a.len() implies a[i] == b[i] by {
                    assert(a.drop_first()[i - 1] == b.drop_first()[i - 1]);
                };
                assert(a =~= b);
            }
        };
        lemma_lex_connected(a.drop_first(), b.drop_first());
    }
}

/// `s` with every non-overlapping occurrence of `pat` replaced by `to`,
/// scanning from the left.
pub open spec fn replace_all_spec(s: Seq<char>, pat: Seq<char>, to: Seq<char>) -> Seq<char>
    decreases s.len(),
{
    if pat.len() == 0 || s.len() < pat.len() {
        s
    } else if s.take(pat.len() as int) == pat {
        to + replace_all_spec(s.skip(pat.len() as int), pat, to)
    } else {
        seq![s[0]] + replace_all_spec(s.drop_first(), pat, to)
    }
}

/// Whether `pat` occurs in `a_str` at position `a_pos`.
fn matches_at(a_str: &str, a_pos: usize, a_pat: &str) -> (r: bool)
    requires
        a_pos + a_pat@.len() <= a_str@.len() <= usize::MAX,
    ensures
        r == (a_str@.subrange(a_pos as int, a_pos + a_pat@.len()) == a_pat@),
{
    let n = a_pat.unicode_len();
    let mut i: usize = 0;
    while i < n
        invariant
            i <= n,
            n == a_pat@.len(),
            a_pos + n <= a_str@.len() <= usize::MAX,
            forall|j: int| 0 <= j < i ==> a_str@[a_pos + j] == a_pat@[j],
        decreases n - i,
    {
        if a_str.get_char(a_pos + i) != a_pat.get_char(i) {
            let ghost k = i as int;
            assert(a_str@.subrange(a_pos as int, a_pos + a_pat@.len())[k] != a_pat@[k]);
            return false;
        }
        i = i + 1;
    }
    proof {
        assert(a_str@.subrange(a_pos as int, a_pos + a_pat@.len()) =~= a_pat@);
    }
    true
}

/// Replace every non-overlapping occurrence of `a_pat` in `a_str` by
/// `a_to`, scanning from the left.
pub fn replace_all(a_str: &str, a_pat: &str, a_to: &str) -> (r: String)
    requires
        a_pat@.len() > 0,
    ensures
        r@ == replace_all_spec(a_str@, a_pat@, a_to@),
{
    let n = a_str.unicode_len();
    let plen = a_pat.unicode_len();
    let mut out = String::new();
    let mut i: usize = 0;
    proof {
        assert(a_str@.skip(0) =~= a_str@);
        assert(Seq::<char>::empty() + replace_all_spec(a_str@, a_pat@, a_to@) =~= replace_all_spec(
            a_str@,
            a_pat@,
            a_to@,
        ));
    }
    while i < n
        invariant
            i <= n,
            n == a_str@.len(),
            plen == a_pat@.len(),
            plen > 0,
            out@ + replace_all_spec(a_str@.skip(i as int), a_pat@, a_to@) == replace_all_spec(
                a_str@,
                a_pat@,
                a_to@,
            ),
        decreases n - i,
    {
        let ghost rest = a_str@.skip(i as int);
        let ghost prev = out@;
        if plen <= n - i && matches_at(a_str, i, a_pat) {
            proof {
                assert(rest.take(plen as int) =~= a_str@.subrange(i as int, i + plen));
                assert(rest.skip(plen as int) =~= a_str@.skip(i + plen));
                assert(replace_all_spec(rest, a_pat@, a_to@) == a_to@ + replace_all_spec(
                    a_str@.skip(i + plen),
                    a_pat@,
                    a_to@,
                ));
            }
            out.append(a_to);
            proof {
                assert(out@ + replace_all_spec(a_str@.skip(i + plen), a_pat@, a_to@) =~= prev
                    + replace_all_spec(rest, a_pat@, a_to@));
            }
            i = i + plen;
        } else {
            proof {
                if plen <= n - i {
                    assert(rest.take(plen as int) =~= a_str@.subrange(i as int, i + plen));
                }
                assert(rest.drop_first() =~= a_str@.skip(i + 1));
                assert(seq![rest[0]] =~= a_str@.subrange(i as int, i + 1));
                assert(replace_all_spec(rest, a_pat@, a_to@) == seq![rest[0]] + replace_all_spec(
                    a_str@.skip(i + 1),
                    a_pat@,
                    a_to@,
                ));
            }
            let c = a_str.substring_char(i, i + 1);
            out.append(c);
            proof {
                assert(out@ + replace_all_spec(a_str@.skip(i + 1), a_pat@, a_to@) =~= prev
                    + replace_all_spec(rest, a_pat@, a_to@));
            }
            i = i + 1;
        }
    }
    proof {
        assert(a_str@.skip(n as int) =~= Seq::<char>::empty());
    }
    out
}

/// The tokens of `s` split on single spaces: every space ends a token,
/// and the separators themselves are dropped. Splitting the empty string
/// gives one empty token.
pub open spec fn split_spaces_spec(s: Seq<char>) -> Seq<Seq<char>>
    decreases s.len(),
{
    if s.len() == 0 {
        seq![Seq::<char>::empty()]
    } else {
        let rest = split_spaces_spec(s.drop_last());
        if s.last() == ' ' {
            rest.push(Seq::<char>::empty())
        } else {
            rest.update(rest.len() - 1, rest.last().push(s.last()))
        }
    }
}

/// The character-sequence views of a list of strings.
pub open spec fn str_views(v: Seq<String>) -> Seq<Seq<char>> {
    v.map_values(|t: String| t@)
}

proof fn lemma_split_spaces_spec_len(s: Seq<char>)
    ensures
        split_spaces_spec(s).len() >= 1,
    decreases s.len(),
{
    if s.len() > 0 {
        lemma_split_spaces_spec_len(s.drop_last());
    }
}

/// Split `a_str` on single spaces, keeping empty tokens.
pub fn split_spaces(a_str: &str) -> (r: Vec<String>)
    ensures
        str_views(r@) == split_spaces_spec(a_str@),
        r@.len() >= 1,
{
    let n = a_str.unicode_len();
    let mut out: Vec<String> = Vec::new();
    let mut cur = String::new();
    let mut i: usize = 0;
    while i < n
        invariant
            i <= n,
            n == a_str@.len(),
            split_spaces_spec(a_str@.take(i as int)) == str_views(out@).push(cur@),
        decreases n - i,
    {
        let ghost pre = a_str@.take(i as int);
        let ghost post = a_str@.take(i + 1);
        proof {
            assert(post.drop_last() =~= pre);
            assert(post.last() == a_str@[i as int]);
            lemma_split_spaces_spec_len(pre);
        }
        let ghost prev_out = out@;
        let ghost prev_cur = cur@;
        let c = a_str.get_char(i);
        if c == ' ' {
            out.push(cur);
            cur = String::new();
            proof {
                assert(str_views(out@) =~= str_views(prev_out).push(prev_cur));
                assert(split_spaces_spec(post) == split_spaces_spec(pre).push(
                    Seq::<char>::empty(),
                ));
                assert(str_views(out@).push(cur@) =~= split_spaces_spec(post));
            }
        } else {
            let cs = a_str.substring_char(i, i + 1);
            proof {
                assert(cs@ =~= seq![a_str@[i as int]]);
            }
            cur.append(cs);
            proof {
                assert(cur@ =~= prev_cur.push(a_str@[i as int]));
                let ghost sp = split_spaces_spec(pre);
                assert(split_spaces_spec(post) == sp.update(sp.len() - 1, sp.last().push(
                    a_str@[i as int],
                )));
                assert(sp.last() == prev_cur);
                assert(str_views(out@).push(cur@) =~= split_spaces_spec(post));
            }
        }
        i = i + 1;
    }
    proof {
        assert(a_str@.take(n as int) =~= a_str@);
        lemma_split_spaces_spec_len(a_str@);
    }
    let ghost prev_out = out@;
    let ghost prev_cur = cur@;
    out.push(cur);
    proof {
        assert(str_views(out@) =~= str_views(prev_out).push(prev_cur));
        assert(str_views(out@) =~= split_spaces_spec(a_str@));
    }
    out
}

/// A content-preserving copy of a list of strings.
pub fn clone_strings(a_list: &Vec<String>) -> (r: Vec<String>)
    ensures
        r@ == a_list@,
{
    let mut r: Vec<String> = Vec::new();
    let mut i: usize = 0;
    while i < a_list.len()
        invariant
            i <= a_list@.len(),
            r@ =~= a_list@.take(i as int),
        decreases a_list@.len() - i,
    {
        r.push(a_list[i].clone());
        i = i + 1;
    }
    proof {
        assert(a_list@.take(a_list@.len() as int) =~= a_list@);
    }
    r
}

} // verus!
