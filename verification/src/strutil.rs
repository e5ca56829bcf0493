//! Verified string helpers: splitting a path at `/`, suffix tests, equality.

use vstd::prelude::*;

verus! {

/// The segments of `s` split at `'/'`, with `cur` the segment gathered so far.
pub open spec fn split_acc(s: Seq<char>, cur: Seq<char>) -> Seq<Seq<char>>
    decreases s.len(),
{
    if s.len() == 0 {
        seq![cur]
    } else if s[0] == '/' {
        seq![cur] + split_acc(s.drop_first(), Seq::empty())
    } else {
        split_acc(s.drop_first(), cur.push(s[0]))
    }
}

/// The segments of a path split at `'/'`: what `str::split('/')` yields.
pub open spec fn spec_split(s: Seq<char>) -> Seq<Seq<char>> {
    split_acc(s, Seq::empty())
}

pub proof fn lemma_split_acc_len(s: Seq<char>, cur: Seq<char>)
    ensures
        split_acc(s, cur).len() >= 1,
    decreases s.len(),
{
    if s.len() == 0 {
    } else if s[0] == '/' {
        lemma_split_acc_len(s.drop_first(), Seq::empty());
    } else {
        lemma_split_acc_len(s.drop_first(), cur.push(s[0]));
    }
}

/// Splits `s` at `'/'`, as `str::split('/')` does: every string yields at
/// least one segment, and an empty string yields one empty segment.
pub fn split_slash(s: &str) -> (r: Vec<String>)
    ensures
        r.deep_view() == spec_split(s@),
{
    let n: usize = s.unicode_len();
    let mut out: Vec<String> = Vec::new();
    let mut start: usize = 0;
    let mut i: usize = 0;
    proof {
        assert(s@.skip(0) =~= s@);
        assert(s@.subrange(0, 0) =~= Seq::<char>::empty());
    }
    while i < n
        invariant
            0 <= start <= i <= n,
            n == s@.len(),
            spec_split(s@) == out.deep_view() + split_acc(
                s@.skip(i as int),
                s@.subrange(start as int, i as int),
            ),
        decreases n - i,
    {
        let c = s.get_char(i);
        if c == '/' {
            let seg = s.substring_char(start, i);
            let ghost old_out = out.deep_view();
            out.push(seg.to_owned());
            proof {
                assert(out.deep_view() =~= old_out.push(s@.subrange(start as int, i as int)));
                assert(s@.skip(i as int).drop_first() =~= s@.skip(i + 1));
                assert(out.deep_view() + split_acc(s@.skip(i + 1), Seq::empty()) =~= old_out + (
                seq![s@.subrange(start as int, i as int)] + split_acc(
                    s@.skip(i + 1),
                    Seq::empty(),
                )));
                assert(s@.subrange(i + 1, i + 1) =~= Seq::<char>::empty());
            }
            start = i + 1;
        } else {
            proof {
                assert(s@.skip(i as int).drop_first() =~= s@.skip(i + 1));
                assert(s@.subrange(start as int, i as int).push(s@[i as int]) =~= s@.subrange(
                    start as int,
                    i + 1,
                ));
            }
        }
        i = i + 1;
    }
    let seg = s.substring_char(start, n);
    let ghost old_out = out.deep_view();
    out.push(seg.to_owned());
    proof {
        assert(s@.skip(n as int) =~= Seq::<char>::empty());
        assert(out.deep_view() =~= old_out.push(s@.subrange(start as int, n as int)));
        assert(out.deep_view() =~= old_out + seq![s@.subrange(start as int, n as int)]);
    }
    out
}


// ---- suffix test and equality ----

/// `s` ends with `suf`.
pub open spec fn spec_ends_with(s: Seq<char>, suf: Seq<char>) -> bool {
    s.len() >= suf.len() && s.skip(s.len() - suf.len()) == suf
}

pub fn str_ends_with(s: &str, suf: &str) -> (r: bool)
    ensures
        r == spec_ends_with(s@, suf@),
{
    let n: usize = s.unicode_len();
    let m: usize = suf.unicode_len();
    if n < m {
        return false;
    }
    let off: usize = n - m;
    let mut i: usize = 0;
    while i < m
        invariant
            i <= m,
            m <= n,
            n == s@.len(),
            m == suf@.len(),
            off == n - m,
            forall|t: int| 0 <= t < i ==> s@[off + t] == suf@[t],
        decreases m - i,
    {
        if s.get_char(off + i) != suf.get_char(i) {
            proof {
                assert(s@.skip(off as int)[i as int] == s@[off + i]);
            }
            return false;
        }
        i = i + 1;
    }
    proof {
        assert(s@.skip(off as int) =~= suf@);
    }
    true
}

pub fn str_eq_str(a: &str, b: &str) -> (r: bool)
    ensures
        r == (a@ == b@),
{
    let n: usize = a.unicode_len();
    let m: usize = b.unicode_len();
    if n != m {
        return false;
    }
    let mut i: usize = 0;
    while i < n
        invariant
            i <= n,
            n == a@.len(),
            n == b@.len(),
            forall|t: int| 0 <= t < i ==> a@[t] == b@[t],
        decreases n - i,
    {
        if a.get_char(i) != b.get_char(i) {
            return false;
        }
        i = i + 1;
    }
    proof {
        assert(a@ =~= b@);
    }
    true
}

// ---- file stems ----

/// The index right after the last `'/'` of `p`, or 0 if there is none.
pub open spec fn last_slash_end(p: Seq<char>) -> int
    decreases p.len(),
{
    if p.len() == 0 {
        0
    } else if p[p.len() - 1] == '/' {
        p.len() as int
    } else {
        last_slash_end(p.drop_last())
    }
}

/// The file name of `p`: what follows its last `'/'`.
pub open spec fn base_name(p: Seq<char>) -> Seq<char> {
    p.skip(last_slash_end(p))
}

/// The last index `j >= 1` of `b` holding `'.'`, or 0 if there is none: the
/// cut for the extension. A name whose only `'.'` is its first character
/// keeps it, as `Path::file_stem` does.
pub open spec fn last_dot_from(b: Seq<char>) -> int
    decreases b.len(),
{
    if b.len() <= 1 {
        0
    } else if b[b.len() - 1] == '.' {
        b.len() - 1
    } else {
        last_dot_from(b.drop_last())
    }
}

/// `b` without its extension.
pub open spec fn stem_of_name(b: Seq<char>) -> Seq<char> {
    if last_dot_from(b) == 0 {
        b
    } else {
        b.take(last_dot_from(b))
    }
}

/// The file name of `p` without its directory prefix and extension.
pub open spec fn stem_of(p: Seq<char>) -> Seq<char> {
    stem_of_name(base_name(p))
}

pub fn file_stem(p: &str) -> (r: String)
    ensures
        r@ == stem_of(p@),
{
    let n: usize = p.unicode_len();
    proof {
        assert(p@.take(n as int) =~= p@);
    }
    let mut k: usize = n;
    while k > 0 && p.get_char(k - 1) != '/'
        invariant
            k <= n,
            n == p@.len(),
            last_slash_end(p@) == last_slash_end(p@.take(k as int)),
        decreases k,
    {
        proof {
            assert(p@.take(k as int).drop_last() =~= p@.take(k - 1));
            assert(p@.take(k as int).last() == p@[k - 1]);
        }
        k = k - 1;
    }
    proof {
        if k == 0 {
            assert(p@.take(0) =~= Seq::<char>::empty());
        }
        assert(last_slash_end(p@) == k);
    }
    let base = p.substring_char(k, n);
    proof {
        assert(base@ == p@.skip(k as int));
        assert(base@ == base_name(p@));
        assert(base@.take((n - k) as int) =~= base@);
    }
    let m: usize = n - k;
    let mut d: usize = m;
    while d > 1 && base.get_char(d - 1) != '.'
        invariant
            d <= m,
            m == base@.len(),
            last_dot_from(base@) == last_dot_from(base@.take(d as int)),
        decreases d,
    {
        proof {
            assert(base@.take(d as int).drop_last() =~= base@.take(d - 1));
            assert(base@.take(d as int).last() == base@[d - 1]);
        }
        d = d - 1;
    }
    if d > 1 {
        proof {
            assert(last_dot_from(base@) == d - 1);
        }
        let stem = base.substring_char(0, d - 1);
        proof {
            assert(stem@ =~= base@.take(d - 1));
        }
        stem.to_owned()
    } else {
        proof {
            assert(last_dot_from(base@.take(d as int)) == 0);
            assert(stem_of_name(base@) == base@);
        }
        base.to_owned()
    }
}

// ---- title tidying ----

/// The length of the leading run of non-alphabetic characters of `s`.
pub open spec fn alpha_start(s: Seq<char>) -> int
    decreases s.len(),
{
    if s.len() == 0 {
        0
    } else if crate::outside::is_alpha(s[0]) {
        0
    } else {
        1 + alpha_start(s.drop_first())
    }
}

pub proof fn lemma_alpha_start_at(s: Seq<char>, k: int)
    requires
        0 <= k <= s.len(),
        forall|t: int| 0 <= t < k ==> !crate::outside::is_alpha(s[t]),
        k == s.len() || crate::outside::is_alpha(s[k]),
    ensures
        alpha_start(s) == k,
    decreases k,
{
    if k == 0 {
    } else {
        lemma_alpha_start_at(s.drop_first(), k - 1);
    }
}

/// `'_'` read as a space; any other character unchanged.
pub open spec fn despace(c: char) -> char {
    if c == '_' {
        ' '
    } else {
        c
    }
}

/// `s` with its leading non-alphabetic run removed, the ordering prefix, and
/// every underscore replaced by a space.
pub open spec fn tidy_name(s: Seq<char>) -> Seq<char> {
    s.skip(alpha_start(s)).map_values(|c: char| despace(c))
}

// ---- indentation ----

/// `4 * n` spaces.
pub open spec fn indent_of(n: nat) -> Seq<char> {
    Seq::new(4 * n, |i: int| ' ')
}

pub fn make_indent(indent: usize) -> (r: String)
    ensures
        r@ == indent_of(indent as nat),
{
    let mut out = String::new();
    let mut i: usize = 0;
    proof {
        assert(out@ =~= indent_of(0));
    }
    while i < indent
        invariant
            i <= indent,
            out@ == indent_of(i as nat),
        decreases indent - i,
    {
        out.append("    ");
        proof {
            reveal_strlit("    ");
            assert(out@ =~= indent_of((i + 1) as nat));
        }
        i = i + 1;
    }
    out
}

} // verus!
