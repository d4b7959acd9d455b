//! Character and string helpers: comparison, prefix tests, sorting, joining,
//! padding and trimming, all against sequence-of-character models.

use vstd::prelude::*;
use vstd::string::StrSliceExecFns;
use vstd::string::StringExecFns;

verus! {

/// Whether two string slices hold the same characters.
pub fn str_eq(a: &str, b: &str) -> (r: bool)
    ensures
        r == (a@ == b@),
{
    let na = a.unicode_len();
    let nb = b.unicode_len();
    if na != nb {
        return false;
    }
    let mut i: usize = 0;
    while i < na
        invariant
            0 <= i <= na,
            na == a@.len(),
            na == b@.len(),
            forall|j: int| 0 <= j < i ==> a@[j] == b@[j],
        decreases na - i,
    {
        if a.get_char(i) != b.get_char(i) {
            return false;
        }
        i = i + 1;
    }
    proof {
        assert(a@ =~= b@);
    }
    true
}

/// Whether `p` is a prefix of `s`.
pub fn str_is_prefix(p: &str, s: &str) -> (r: bool)
    ensures
        r == p@.is_prefix_of(s@),
{
    let np = p.unicode_len();
    let ns = s.unicode_len();
    if np > ns {
        return false;
    }
    let mut i: usize = 0;
    while i < np
        invariant
            0 <= i <= np,
            np == p@.len(),
            ns == s@.len(),
            np <= ns,
            forall|j: int| 0 <= j < i ==> p@[j] == s@[j],
        decreases np - i,
    {
        if p.get_char(i) != s.get_char(i) {
            proof {
                assert(!(p@ =~= s@.subrange(0, p@.len() as int)));
            }
            return false;
        }
        i = i + 1;
    }
    proof {
        assert(p@ =~= s@.subrange(0, p@.len() as int));
    }
    true
}

/// Lexicographic order on character sequences, by code point.
pub open spec fn lex_le(a: Seq<char>, b: Seq<char>) -> bool
    decreases a.len(),
{
    if a.len() == 0 {
        true
    } else if b.len() == 0 {
        false
    } else if (a[0] as int) < (b[0] as int) {
        true
    } else if a[0] != b[0] {
        false
    } else {
        lex_le(a.drop_first(), b.drop_first())
    }
}

/// The order is total: of two sequences, one is below the other.
pub proof fn lemma_lex_total(a: Seq<char>, b: Seq<char>)
    ensures
        lex_le(a, b) || lex_le(b, a),
    decreases a.len(),
{
    if a.len() > 0 && b.len() > 0 && a[0] == b[0] {
        lemma_lex_total(a.drop_first(), b.drop_first());
    }
}

/// Whether `a` comes at or before `b` in lexicographic order.
pub fn str_lex_le(a: &str, b: &str) -> (r: bool)
    ensures
        r == lex_le(a@, b@),
{
    let na = a.unicode_len();
    let nb = b.unicode_len();
    let mut i: usize = 0;
    proof {
        assert(a@.skip(0) =~= a@);
        assert(b@.skip(0) =~= b@);
    }
    loop
        invariant
            0 <= i <= na,
            0 <= i <= nb,
            na == a@.len(),
            nb == b@.len(),
            lex_le(a@, b@) == lex_le(a@.skip(i as int), b@.skip(i as int)),
        decreases na - i,
    {
        if i == na {
            return true;
        }
        if i == nb {
            return false;
        }
        let ca = a.get_char(i);
        let cb = b.get_char(i);
        if (ca as u32) < (cb as u32) {
            proof {
                assert(a@.skip(i as int)[0] == ca);
                assert(b@.skip(i as int)[0] == cb);
            }
            return true;
        }
        if (ca as u32) > (cb as u32) {
            proof {
                assert(a@.skip(i as int)[0] == ca);
                assert(b@.skip(i as int)[0] == cb);
            }
            return false;
        }
        proof {
            assert(ca == cb) by {
                assert(ca as u32 == cb as u32);
            }
            assert(a@.skip(i as int)[0] == ca);
            assert(b@.skip(i as int)[0] == cb);
            assert(a@.skip(i as int).drop_first() =~= a@.skip(i as int + 1));
            assert(b@.skip(i as int).drop_first() =~= b@.skip(i as int + 1));
        }
        i = i + 1;
    }
}

/// `x` inserted in front of the first element of `s` that is not below it.
pub open spec fn insert_lex(s: Seq<Seq<char>>, x: Seq<char>) -> Seq<Seq<char>>
    decreases s.len(),
{
    if s.len() == 0 {
        seq![x]
    } else if lex_le(x, s[0]) {
        seq![x] + s
    } else {
        seq![s[0]] + insert_lex(s.drop_first(), x)
    }
}

/// `s` rearranged into lexicographic order by repeated insertion.
pub open spec fn sort_lex(s: Seq<Seq<char>>) -> Seq<Seq<char>>
    decreases s.len(),
{
    if s.len() == 0 {
        Seq::empty()
    } else {
        insert_lex(sort_lex(s.drop_first()), s[0])
    }
}

/// Where the first position with an element at or above `x` is `j`, inserting
/// `x` splits the sequence there.
proof fn lemma_insert_lex_at(s: Seq<Seq<char>>, x: Seq<char>, j: int)
    requires
        0 <= j <= s.len(),
        forall|k: int| 0 <= k < j ==> !lex_le(x, #[trigger] s[k]),
        j < s.len() ==> lex_le(x, s[j]),
    ensures
        insert_lex(s, x) =~= s.take(j) + seq![x] + s.skip(j),
    decreases j,
{
    if j == 0 {
        if s.len() == 0 {
            assert(insert_lex(s, x) =~= s.take(0) + seq![x] + s.skip(0));
        } else {
            assert(insert_lex(s, x) =~= s.take(0) + seq![x] + s.skip(0));
        }
    } else {
        assert(!lex_le(x, s[0]));
        lemma_insert_lex_at(s.drop_first(), x, j - 1);
        assert(s.drop_first().take(j - 1) =~= s.take(j).drop_first());
        assert(s.drop_first().skip(j - 1) =~= s.skip(j));
        assert(seq![s[0]] + insert_lex(s.drop_first(), x) =~= s.take(j) + seq![x] + s.skip(j));
    }
}

/// The order is transitive.
pub proof fn lemma_lex_trans(a: Seq<char>, b: Seq<char>, c: Seq<char>)
    requires
        lex_le(a, b),
        lex_le(b, c),
    ensures
        lex_le(a, c),
    decreases a.len(),
{
    if a.len() > 0 && b.len() > 0 && c.len() > 0 && a[0] == b[0] && b[0] == c[0] {
        lemma_lex_trans(a.drop_first(), b.drop_first(), c.drop_first());
    }
}

/// Whether `s` is in lexicographic order.
pub open spec fn lex_sorted(s: Seq<Seq<char>>) -> bool {
    forall|i: int, j: int| 0 <= i < j < s.len() ==> lex_le(#[trigger] s[i], #[trigger] s[j])
}

/// Inserting adds exactly one occurrence of the inserted string.
proof fn lemma_insert_lex_multiset(s: Seq<Seq<char>>, x: Seq<char>)
    ensures
        insert_lex(s, x).to_multiset() == s.to_multiset().insert(x),
    decreases s.len(),
{
    broadcast use vstd::seq_lib::group_to_multiset_ensures;

    let r = insert_lex(s, x);
    if s.len() == 0 || lex_le(x, s[0]) {
        assert(r == seq![x] + s);
        assert(r.remove(0) =~= s);
        assert(r[0] == x);
        assert(s.to_multiset() =~= r.to_multiset().remove(x));
        assert(r.contains(x)) by {
            assert(r[0] == x);
        }
        assert(r.to_multiset().count(x) > 0);
        assert(r.to_multiset() =~= s.to_multiset().insert(x));
    } else {
        lemma_insert_lex_multiset(s.drop_first(), x);
        assert(r == seq![s[0]] + insert_lex(s.drop_first(), x));
        assert(r.remove(0) =~= insert_lex(s.drop_first(), x));
        assert(r[0] == s[0]);
        assert(insert_lex(s.drop_first(), x).to_multiset() =~= r.to_multiset().remove(s[0]));
        assert(s.remove(0) =~= s.drop_first());
        assert(s.drop_first().to_multiset() =~= s.to_multiset().remove(s[0]));
        assert(r.contains(s[0])) by {
            assert(r[0] == s[0]);
        }
        assert(s.contains(s[0]));
        assert(r.to_multiset().count(s[0]) > 0);
        assert(s.to_multiset().count(s[0]) > 0);
        assert forall|y: Seq<char>| r.to_multiset().count(y) == s.to_multiset().insert(x).count(
            y,
        ) by {
            assert(r.to_multiset().remove(s[0]).count(y) == s.to_multiset().remove(
                s[0],
            ).insert(x).count(y));
        }
        assert(r.to_multiset() =~= s.to_multiset().insert(x));
    }
}

/// Inserting into a sorted sequence keeps it sorted.
proof fn lemma_insert_lex_sorted(s: Seq<Seq<char>>, x: Seq<char>)
    requires
        lex_sorted(s),
    ensures
        lex_sorted(insert_lex(s, x)),
    decreases s.len(),
{
    broadcast use vstd::seq_lib::group_to_multiset_ensures;

    let r = insert_lex(s, x);
    if s.len() == 0 {
    } else if lex_le(x, s[0]) {
        assert forall|i: int, j: int| 0 <= i < j < r.len() implies lex_le(r[i], r[j]) by {
            if i == 0 {
                assert(r[0] == x);
                assert(r[j] == s[j - 1]);
                if j == 1 {
                } else {
                    lemma_lex_trans(x, s[0], s[j - 1]);
                }
            } else {
                assert(r[i] == s[i - 1]);
                assert(r[j] == s[j - 1]);
            }
        }
    } else {
        let rest = s.drop_first();
        assert(forall|k: int| 0 <= k < rest.len() ==> (#[trigger] rest[k]) == s[k + 1]);
        lemma_insert_lex_sorted(rest, x);
        lemma_insert_lex_multiset(rest, x);
        lemma_lex_total(x, s[0]);
        let inner = insert_lex(rest, x);
        assert forall|i: int, j: int| 0 <= i < j < r.len() implies lex_le(r[i], r[j]) by {
            if i == 0 {
                assert(r[0] == s[0]);
                assert(r[j] == inner[j - 1]);
                let e = inner[j - 1];
                assert(inner.contains(e));
                assert(inner.to_multiset().count(e) > 0);
                if e == x {
                    assert(lex_le(s[0], x));
                } else {
                    assert(rest.to_multiset().count(e) > 0);
                    assert(rest.contains(e));
                    let k = choose|k: int| 0 <= k < rest.len() && rest[k] == e;
                    assert(lex_le(s[0], s[k + 1]));
                }
            } else {
                assert(r[i] == inner[i - 1]);
                assert(r[j] == inner[j - 1]);
            }
        }
    }
}

/// Sorting yields a lexicographically ordered rearrangement: the same
/// strings, each kept with its multiplicity.
pub proof fn lemma_sort_lex_ensures(s: Seq<Seq<char>>)
    ensures
        lex_sorted(sort_lex(s)),
        sort_lex(s).to_multiset() == s.to_multiset(),
    decreases s.len(),
{
    broadcast use vstd::seq_lib::group_to_multiset_ensures;

    if s.len() > 0 {
        let rest = s.drop_first();
        lemma_sort_lex_ensures(rest);
        lemma_insert_lex_sorted(sort_lex(rest), s[0]);
        lemma_insert_lex_multiset(sort_lex(rest), s[0]);
        assert(s.remove(0) =~= rest);
        assert(rest.to_multiset() =~= s.to_multiset().remove(s[0]));
        assert(s.contains(s[0]));
        assert(s.to_multiset().count(s[0]) > 0);
        assert(sort_lex(s).to_multiset() =~= s.to_multiset());
    }
}

/// The characters of each string of `v`, in order.
pub open spec fn views_of(v: Seq<String>) -> Seq<Seq<char>> {
    v.map_values(|s: String| s@)
}

/// Inserts `word` into the already sorted `v`, keeping it sorted.
fn insert_sorted(v: &mut Vec<String>, word: String)
    ensures
        views_of(final(v)@) == insert_lex(views_of(old(v)@), word@),
{
    let n = v.len();
    let mut j: usize = 0;
    loop
        invariant_except_break
            0 <= j <= n,
            n == v@.len(),
            forall|k: int| 0 <= k < j ==> !lex_le(word@, #[trigger] views_of(v@)[k]),
        ensures
            0 <= j <= n,
            n == v@.len(),
            forall|k: int| 0 <= k < j ==> !lex_le(word@, #[trigger] views_of(v@)[k]),
            j < n ==> lex_le(word@, views_of(v@)[j as int]),
        decreases n - j,
    {
        if j == n {
            break;
        }
        let below = str_lex_le(word.as_str(), v[j].as_str());
        proof {
            assert(views_of(v@)[j as int] == v@[j as int]@);
        }
        if below {
            break;
        }
        j = j + 1;
    }
    proof {
        lemma_insert_lex_at(views_of(v@), word@, j as int);
    }
    let ghost pre = v@;
    v.insert(j, word);
    proof {
        assert(views_of(v@) =~= views_of(pre).take(j as int) + seq![word@] + views_of(pre).skip(
            j as int,
        ));
    }
}

/// `v` rearranged into lexicographic order.
pub fn sort_strings(v: &Vec<String>) -> (r: Vec<String>)
    ensures
        views_of(r@) == sort_lex(views_of(v@)),
{
    let n = v.len();
    let mut r: Vec<String> = Vec::new();
    let mut i: usize = n;
    proof {
        assert(views_of(v@).skip(n as int) =~= Seq::<Seq<char>>::empty());
        assert(views_of(r@) =~= Seq::<Seq<char>>::empty());
    }
    while i > 0
        invariant
            0 <= i <= n,
            n == v@.len(),
            views_of(r@) == sort_lex(views_of(v@).skip(i as int)),
        decreases i,
    {
        i = i - 1;
        let word = v[i].clone();
        insert_sorted(&mut r, word);
        proof {
            assert(views_of(v@).skip(i as int).drop_first() =~= views_of(v@).skip(i as int + 1));
            assert(views_of(v@).skip(i as int)[0] == v@[i as int]@);
        }
    }
    proof {
        assert(views_of(v@).skip(0) =~= views_of(v@));
    }
    r
}

/// The parts joined with `sep` between each neighbouring pair.
pub open spec fn join_with(parts: Seq<Seq<char>>, sep: Seq<char>) -> Seq<char>
    decreases parts.len(),
{
    if parts.len() == 0 {
        Seq::empty()
    } else if parts.len() == 1 {
        parts[0]
    } else {
        parts[0] + sep + join_with(parts.drop_first(), sep)
    }
}

/// Joining one more part appends a separator and the part.
pub proof fn lemma_join_with_push(parts: Seq<Seq<char>>, sep: Seq<char>, x: Seq<char>)
    ensures
        join_with(parts.push(x), sep) == if parts.len() == 0 {
            x
        } else {
            join_with(parts, sep) + sep + x
        },
    decreases parts.len(),
{
    if parts.len() == 0 {
        assert(parts.push(x) =~= seq![x]);
        assert(join_with(seq![x], sep) == x);
    } else {
        lemma_join_with_push(parts.drop_first(), sep, x);
        assert(parts.push(x).drop_first() =~= parts.drop_first().push(x));
        assert(parts.push(x)[0] == parts[0]);
        if parts.len() == 1 {
            assert(parts.drop_first().len() == 0);
            assert(join_with(parts.push(x), sep) == parts[0] + sep + x);
            assert(join_with(parts, sep) == parts[0]);
        } else {
            assert(join_with(parts.push(x), sep) == parts[0] + sep + (join_with(
                parts.drop_first(),
                sep,
            ) + sep + x));
            assert(parts[0] + sep + (join_with(parts.drop_first(), sep) + sep + x) =~= (parts[0]
                + sep + join_with(parts.drop_first(), sep)) + sep + x);
        }
    }
}

/// The parts of `v` joined with `sep`.
pub fn join_strings(v: &Vec<String>, sep: &str) -> (r: String)
    ensures
        r@ == join_with(views_of(v@), sep@),
{
    let n = v.len();
    let mut r = String::new();
    let mut i: usize = 0;
    proof {
        assert(views_of(v@).take(0) =~= Seq::<Seq<char>>::empty());
    }
    while i < n
        invariant
            0 <= i <= n,
            n == v@.len(),
            r@ == join_with(views_of(v@).take(i as int), sep@),
        decreases n - i,
    {
        if i > 0 {
            r.append(sep);
        }
        r.append(v[i].as_str());
        proof {
            assert(views_of(v@).take(i as int).push(v@[i as int]@) =~= views_of(v@).take(
                i as int + 1,
            ));
            lemma_join_with_push(views_of(v@).take(i as int), sep@, v@[i as int]@);
        }
        i = i + 1;
    }
    proof {
        assert(views_of(v@).take(n as int) =~= views_of(v@));
    }
    r
}

/// `n` space characters.
pub open spec fn spaces(n: nat) -> Seq<char>
    decreases n,
{
    if n == 0 {
        Seq::empty()
    } else {
        spaces((n - 1) as nat).push(' ')
    }
}

/// A string of `n` spaces.
pub fn space_string(n: usize) -> (r: String)
    ensures
        r@ == spaces(n as nat),
{
    let mut r = String::new();
    let mut i: usize = 0;
    while i < n
        invariant
            0 <= i <= n,
            r@ == spaces(i as nat),
        decreases n - i,
    {
        r.append(" ");
        proof {
            reveal_strlit(" ");
            assert(r@ =~= spaces(i as nat).push(' '));
        }
        i = i + 1;
    }
    r
}

/// `s` padded with spaces on the right up to `width` characters.
pub open spec fn padded(s: Seq<char>, width: int) -> Seq<char> {
    if s.len() >= width {
        s
    } else {
        s + spaces((width - s.len()) as nat)
    }
}

/// Pads `s` with spaces on the right up to `width` characters.
pub fn pad_right(s: &str, width: usize) -> (r: String)
    ensures
        r@ == padded(s@, width as int),
{
    let n = s.unicode_len();
    let mut r = s.to_owned();
    if n < width {
        let fill = space_string(width - n);
        r.append(fill.as_str());
    }
    r
}

/// The characters Rust's `char::is_whitespace` accepts: the Unicode
/// `White_Space` set.
pub open spec fn is_space_char(c: char) -> bool {
    let u = c as int;
    u == 0x09 || u == 0x0A || u == 0x0B || u == 0x0C || u == 0x0D || u == 0x20 || u == 0x85 || u
        == 0xA0 || u == 0x1680 || (0x2000 <= u && u <= 0x200A) || u == 0x2028 || u == 0x2029 || u
        == 0x202F || u == 0x205F || u == 0x3000
}

/// Whether `c` is a whitespace character.
pub fn is_space(c: char) -> (r: bool)
    ensures
        r == is_space_char(c),
{
    let u = c as u32;
    u == 0x09 || u == 0x0A || u == 0x0B || u == 0x0C || u == 0x0D || u == 0x20 || u == 0x85 || u
        == 0xA0 || u == 0x1680 || (0x2000 <= u && u <= 0x200A) || u == 0x2028 || u == 0x2029 || u
        == 0x202F || u == 0x205F || u == 0x3000
}

/// Whether every character of `s` is whitespace.
pub open spec fn blank_text(s: Seq<char>) -> bool {
    forall|i: int| 0 <= i < s.len() ==> is_space_char(#[trigger] s[i])
}

/// Whether `s` is empty or all whitespace.
pub fn str_is_blank(s: &str) -> (r: bool)
    ensures
        r == blank_text(s@),
{
    let n = s.unicode_len();
    let mut i: usize = 0;
    while i < n
        invariant
            0 <= i <= n,
            n == s@.len(),
            forall|j: int| 0 <= j < i ==> is_space_char(#[trigger] s@[j]),
        decreases n - i,
    {
        if !is_space(s.get_char(i)) {
            return false;
        }
        i = i + 1;
    }
    true
}

/// `s` without leading whitespace.
pub open spec fn trim_front(s: Seq<char>) -> Seq<char>
    decreases s.len(),
{
    if s.len() > 0 && is_space_char(s[0]) {
        trim_front(s.drop_first())
    } else {
        s
    }
}

/// `s` without trailing whitespace.
pub open spec fn trim_back(s: Seq<char>) -> Seq<char>
    decreases s.len(),
{
    if s.len() > 0 && is_space_char(s.last()) {
        trim_back(s.drop_last())
    } else {
        s
    }
}

/// `s` without leading and trailing whitespace.
pub open spec fn trimmed(s: Seq<char>) -> Seq<char> {
    trim_back(trim_front(s))
}

/// Removes leading and trailing whitespace.
pub fn trim_str(s: &str) -> (r: String)
    ensures
        r@ == trimmed(s@),
{
    let n = s.unicode_len();
    let mut start: usize = 0;
    proof {
        assert(s@.skip(0) =~= s@);
    }
    loop
        invariant_except_break
            0 <= start <= n,
            n == s@.len(),
            trim_front(s@) == trim_front(s@.skip(start as int)),
        ensures
            0 <= start <= n,
            n == s@.len(),
            trim_front(s@) == trim_front(s@.skip(start as int)),
            start < n ==> !is_space_char(s@[start as int]),
        decreases n - start,
    {
        if start == n {
            break;
        }
        let sp = is_space(s.get_char(start));
        if !sp {
            break;
        }
        proof {
            assert(s@.skip(start as int)[0] == s@[start as int]);
            assert(s@.skip(start as int).drop_first() =~= s@.skip(start as int + 1));
        }
        start = start + 1;
    }
    let ghost t = s@.skip(start as int);
    if start == n {
        proof {
            assert(t =~= Seq::<char>::empty());
            assert(trim_front(s@) == t);
            assert(trim_back(t) == t);
        }
        return String::new();
    }
    proof {
        assert(t[0] == s@[start as int]);
        assert(trim_front(s@) == t);
    }
    let mut end: usize = n;
    proof {
        assert(t.take(n - start as int) =~= t);
    }
    loop
        invariant_except_break
            start <= end <= n,
            n == s@.len(),
            t == s@.skip(start as int),
            start < n,
            !is_space_char(s@[start as int]),
            trim_back(t) == trim_back(t.take(end - start as int)),
        ensures
            start <= end <= n,
            n == s@.len(),
            t == s@.skip(start as int),
            start < n,
            !is_space_char(s@[start as int]),
            trim_back(t) == trim_back(t.take(end - start as int)),
            end > start ==> !is_space_char(s@[end - 1]),
        decreases end,
    {
        if end == start {
            break;
        }
        let sp = is_space(s.get_char(end - 1));
        if !sp {
            break;
        }
        proof {
            let e = end - start as int;
            assert(t.take(e).last() == t[e - 1]);
            assert(t[e - 1] == s@[end - 1]);
            assert(t.take(e).drop_last() =~= t.take(e - 1));
        }
        end = end - 1;
    }
    proof {
        let e = end - start as int;
        if end > start {
            assert(t.take(e).last() == t[e - 1]);
            assert(t[e - 1] == s@[end - 1]);
            assert(trim_back(t.take(e)) == t.take(e));
        } else {
            assert(end == start);
            assert(t.take(0) =~= Seq::<char>::empty());
            assert(trim_back(t.take(e)) == t.take(e));
        }
        assert(t.take(e) =~= s@.subrange(start as int, end as int));
    }
    let out = s.substring_char(start, end);
    out.to_owned()
}

} // verus!
