//! String helpers: ordering, path pieces, list parsing and escaping.
use vstd::prelude::*;

verus! {

/// The views of a sequence of strings.
pub open spec fn views(v: Seq<String>) -> Seq<Seq<char>> {
    v.map_values(|x: String| x@)
}

/// Lexicographic order on character sequences, the order `str` compares by.
pub open spec fn seq_less(a: Seq<char>, b: Seq<char>) -> bool
    decreases a.len(),
{
    if a.len() == 0 {
        b.len() > 0
    } else if b.len() == 0 {
        false
    } else if a[0] != b[0] {
        (a[0] as int) < (b[0] as int)
    } else {
        seq_less(a.drop_first(), b.drop_first())
    }
}

pub proof fn lemma_less_total(a: Seq<char>, b: Seq<char>)
    ensures
        a != b ==> (seq_less(a, b) || seq_less(b, a)),
        !(seq_less(a, b) && seq_less(b, a)),
    decreases a.len(),
{
    if a.len() > 0 && b.len() > 0 {
        lemma_less_total(a.drop_first(), b.drop_first());
        assert(a =~= seq![a[0]] + a.drop_first());
        assert(b =~= seq![b[0]] + b.drop_first());
    } else if a.len() == 0 && b.len() == 0 {
        assert(a =~= b);
    }
}

pub proof fn lemma_less_transitive(a: Seq<char>, b: Seq<char>, c: Seq<char>)
    requires
        seq_less(a, b),
        seq_less(b, c),
    ensures
        seq_less(a, c),
    decreases a.len(),
{
    if a.len() > 0 && b.len() > 0 && c.len() > 0 {
        if a[0] == b[0] && b[0] == c[0] {
            lemma_less_transitive(a.drop_first(), b.drop_first(), c.drop_first());
        }
    }
}

/// Whether two strings hold the same characters.
pub fn str_eq(a: &str, b: &str) -> (r: bool)
    ensures
        r == (a@ == b@),
{
    let la = a.unicode_len();
    let lb = b.unicode_len();
    if la != lb {
        return false;
    }
    let mut i: usize = 0;
    while i < la
        invariant
            la == a@.len(),
            lb == b@.len(),
            la == lb,
            i <= la,
            a@.take(i as int) == b@.take(i as int),
        decreases la - i,
    {
        if a.get_char(i) != b.get_char(i) {
            return false;
        }
        assert(a@.take(i + 1) =~= a@.take(i as int).push(a@[i as int]));
        assert(b@.take(i + 1) =~= b@.take(i as int).push(b@[i as int]));
        i = i + 1;
    }
    assert(a@.take(la as int) =~= a@);
    assert(b@.take(lb as int) =~= b@);
    true
}

/// Appending to a sequence adds the element to its set.
pub proof fn lemma_push_to_set(s: Seq<Seq<char>>, x: Seq<char>)
    ensures
        s.push(x).to_set() == s.to_set().insert(x),
{
    assert forall|y: Seq<char>| s.push(x).to_set().contains(y) <==> s.to_set().insert(x).contains(y) by {
        if s.push(x).to_set().contains(y) && y != x {
            let i = choose|i: int| 0 <= i < s.push(x).len() && s.push(x)[i] == y;
            assert(s[i] == y);
        }
        if s.to_set().contains(y) {
            let i = choose|i: int| 0 <= i < s.len() && s[i] == y;
            assert(s.push(x)[i] == y);
        }
        if y == x {
            assert(s.push(x)[s.len() as int] == x);
        }
    }
    assert(s.push(x).to_set() =~= s.to_set().insert(x));
}

/// Strictly ascending: sorted and free of duplicates.
pub open spec fn strictly_sorted(s: Seq<Seq<char>>) -> bool {
    forall|i: int, j: int| 0 <= i < j < s.len() ==> seq_less(#[trigger] s[i], #[trigger] s[j])
}

/// Whether `a` sorts before `b`.
pub fn str_less(a: &str, b: &str) -> (r: bool)
    ensures
        r == seq_less(a@, b@),
{
    let la = a.unicode_len();
    let lb = b.unicode_len();
    let mut i: usize = 0;
    assert(a@.skip(0) =~= a@);
    assert(b@.skip(0) =~= b@);
    while i < la && i < lb
        invariant
            la == a@.len(),
            lb == b@.len(),
            i <= la,
            i <= lb,
            seq_less(a@, b@) == seq_less(a@.skip(i as int), b@.skip(i as int)),
        decreases la - i,
    {
        let ca = a.get_char(i);
        let cb = b.get_char(i);
        if ca != cb {
            return (ca as u32) < (cb as u32);
        }
        assert(a@.skip(i as int).drop_first() =~= a@.skip(i + 1));
        assert(b@.skip(i as int).drop_first() =~= b@.skip(i + 1));
        i = i + 1;
    }
    i < lb && i == la
}

/// Inserts `s` into a strictly ascending list unless it is already there.
pub fn insert_sorted(v: &mut Vec<String>, s: String)
    requires
        strictly_sorted(views(old(v)@)),
    ensures
        strictly_sorted(views(final(v)@)),
        views(final(v)@).to_set() == views(old(v)@).to_set().insert(
            s@,
        ),
{
    let ghost old_v = views(v@);
    let mut k: usize = 0;
    while k < v.len() && str_less(v[k].as_str(), s.as_str())
        invariant
            v@ == old(v)@,
            k <= v.len(),
            old_v == views(v@),
            forall|i: int| 0 <= i < k ==> seq_less(#[trigger] old_v[i], s@),
        decreases v.len() - k,
    {
        assert(old_v[k as int] == v@[k as int]@);
        k = k + 1;
    }
    if k < v.len() && !str_less(s.as_str(), v[k].as_str()) {
        proof {
            assert(old_v[k as int] == v@[k as int]@);
            lemma_less_total(s@, old_v[k as int]);
            assert(old_v[k as int] == s@);
            assert(old_v.contains(s@));
            assert(old_v.to_set().insert(s@) =~= old_v.to_set());
        }
        return;
    }
    proof {
        if k < v.len() {
            assert(old_v[k as int] == v@[k as int]@);
            lemma_less_total(s@, old_v[k as int]);
        }
    }
    v.insert(k, s);
    proof {
        let nv = views(v@);
        assert(nv =~= old_v.insert(k as int, s@));
        assert forall|i: int, j: int| 0 <= i < j < nv.len() implies seq_less(
            #[trigger] nv[i],
            #[trigger] nv[j],
        ) by {
            if i < k && j == k {
            } else if i == k && j > k {
                if j > k + 1 {
                    lemma_less_transitive(s@, old_v[k as int], old_v[j - 1]);
                }
            } else if i < k && j > k {
            } else {
            }
        }
        assert forall|x| #[trigger] nv.to_set().contains(x) <==> old_v.to_set().insert(
            s@,
        ).contains(x) by {
            if x == s@ {
                assert(nv[k as int] == s@);
            }
            if nv.to_set().contains(x) && x != s@ {
                let i = choose|i: int| 0 <= i < nv.len() && nv[i] == x;
                if i < k {
                    assert(old_v[i] == x);
                } else {
                    assert(old_v[i - 1] == x);
                }
            }
            if old_v.to_set().contains(x) {
                let i = choose|i: int| 0 <= i < old_v.len() && old_v[i] == x;
                if i < k {
                    assert(nv[i] == x);
                } else {
                    assert(nv[i + 1] == x);
                }
            }
        }
        assert(nv.to_set() =~= old_v.to_set().insert(s@));
    }
}

/// Whether a character has the Unicode `White_Space` property: tab through
/// carriage return, space, next line, no-break space, ogham space mark, the
/// spaces from en quad to hair space, line and paragraph separators, narrow
/// no-break space, medium mathematical space and ideographic space.
pub open spec fn white_space(c: char) -> bool {
    let u = c as int;
    (9 <= u <= 13) || u == 0x20 || u == 0x85 || u == 0xA0 || u == 0x1680 || (0x2000 <= u <= 0x200A)
        || u == 0x2028 || u == 0x2029 || u == 0x202F || u == 0x205F || u == 0x3000
}

/// Whether `c` is white space, as `char::is_whitespace` answers.
fn is_white(c: char) -> (r: bool)
    ensures
        r == white_space(c),
{
    let u = c as u32;
    (9 <= u && u <= 13) || u == 0x20 || u == 0x85 || u == 0xA0 || u == 0x1680 || (0x2000 <= u && u
        <= 0x200A) || u == 0x2028 || u == 0x2029 || u == 0x202F || u == 0x205F || u == 0x3000
}

/// Drops leading white space.
pub open spec fn trim_start(s: Seq<char>) -> Seq<char>
    decreases s.len(),
{
    if s.len() > 0 && white_space(s[0]) {
        trim_start(s.drop_first())
    } else {
        s
    }
}

/// Drops trailing white space.
pub open spec fn trim_end(s: Seq<char>) -> Seq<char>
    decreases s.len(),
{
    if s.len() > 0 && white_space(s.last()) {
        trim_end(s.drop_last())
    } else {
        s
    }
}

/// Drops white space at both ends.
pub open spec fn trimmed(s: Seq<char>) -> Seq<char> {
    trim_end(trim_start(s))
}

/// The pieces between separators, in order; a string without any separator
/// is one piece, and the empty string is one empty piece.
pub open spec fn split_on(s: Seq<char>, sep: char) -> Seq<Seq<char>>
    decreases s.len(),
{
    if s.len() == 0 {
        seq![Seq::<char>::empty()]
    } else {
        let r = split_on(s.drop_last(), sep);
        if s.last() == sep {
            r.push(Seq::<char>::empty())
        } else {
            r.update(r.len() - 1, r.last().push(s.last()))
        }
    }
}

/// The trimmed pieces that are not empty, in order.
pub open spec fn keep_named(p: Seq<Seq<char>>) -> Seq<Seq<char>>
    decreases p.len(),
{
    if p.len() == 0 {
        Seq::<Seq<char>>::empty()
    } else {
        let r = keep_named(p.drop_last());
        let t = trimmed(p.last());
        if t.len() > 0 {
            r.push(t)
        } else {
            r
        }
    }
}

/// The entries of a comma-separated list: each piece trimmed, empty ones dropped.
pub open spec fn comma_list(s: Seq<char>) -> Seq<Seq<char>> {
    keep_named(split_on(s, ','))
}

/// Bounds of the trimmed part of `s[a..b]`.
pub fn trimmed_range(s: &str, a: usize, b: usize) -> (r: (usize, usize))
    requires
        a <= b <= s@.len(),
    ensures
        a <= r.0 <= r.1 <= b,
        s@.subrange(r.0 as int, r.1 as int) == trimmed(s@.subrange(a as int, b as int)),
{
    let mut i = a;
    while i < b && is_white(s.get_char(i))
        invariant
            a <= i <= b <= s@.len(),
            trim_start(s@.subrange(a as int, b as int)) == trim_start(
                s@.subrange(i as int, b as int),
            ),
        decreases b - i,
    {
        assert(s@.subrange(i as int, b as int).drop_first() =~= s@.subrange(i + 1, b as int));
        i = i + 1;
    }
    if i == b {
        assert(s@.subrange(i as int, b as int) =~= Seq::<char>::empty());
    }
    let mut j = b;
    while j > i && is_white(s.get_char(j - 1))
        invariant
            a <= i <= j <= b <= s@.len(),
            trim_end(s@.subrange(i as int, b as int)) == trim_end(s@.subrange(i as int, j as int)),
        decreases j,
    {
        assert(s@.subrange(i as int, j as int).drop_last() =~= s@.subrange(i as int, j - 1));
        j = j - 1;
    }
    (i, j)
}

/// Parses a comma-separated partition list: `"a, b,,c"` gives `a`, `b`, `c`.
pub fn parse_partition_list(s: &str) -> (r: Vec<String>)
    ensures
        views(r@) == comma_list(s@),
{
    let n = s.unicode_len();
    let mut out: Vec<String> = Vec::new();
    let mut st: usize = 0;
    let mut i: usize = 0;
    let ghost mut done: Seq<Seq<char>> = Seq::empty();
    assert(s@.take(0) =~= Seq::<char>::empty());
    assert(s@.subrange(0, 0) =~= Seq::<char>::empty());
    assert(views(out@) =~= Seq::<Seq<char>>::empty());
    while i < n
        invariant
            n == s@.len(),
            st <= i <= n,
            split_on(s@.take(i as int), ',') == done.push(s@.subrange(st as int, i as int)),
            views(out@) == keep_named(done),
        decreases n - i,
    {
        let c = s.get_char(i);
        assert(s@.take(i + 1).drop_last() =~= s@.take(i as int));
        assert(s@.take(i + 1).last() == c);
        if c == ',' {
            let (p, q) = trimmed_range(s, st, i);
            let ghost piece = s@.subrange(st as int, i as int);
            if p < q {
                let item = String::from_str(s.substring_char(p, q));
                out.push(item);
            }
            proof {
                let nd = done.push(piece);
                assert(nd.drop_last() =~= done);
                assert(views(out@) =~= keep_named(nd));
                assert(s@.subrange(i + 1, i + 1) =~= Seq::<char>::empty());
                done = nd;
            }
            st = i + 1;
        } else {
            proof {
                let r = done.push(s@.subrange(st as int, i as int));
                assert(r.last() == s@.subrange(st as int, i as int));
                assert(s@.subrange(st as int, i as int).push(c) =~= s@.subrange(st as int, i + 1));
                assert(r.update(r.len() - 1, r.last().push(c)) =~= done.push(
                    s@.subrange(st as int, i + 1),
                ));
            }
        }
        i = i + 1;
    }
    let (p, q) = trimmed_range(s, st, n);
    let ghost piece = s@.subrange(st as int, n as int);
    if p < q {
        let item = String::from_str(s.substring_char(p, q));
        out.push(item);
    }
    proof {
        let nd = done.push(piece);
        assert(nd.drop_last() =~= done);
        assert(s@.take(n as int) =~= s@);
        assert(views(out@) =~= keep_named(nd));
    }
    out
}

/// Index of the last `/`, or -1 when there is none.
pub open spec fn sep_index(p: Seq<char>) -> int
    decreases p.len(),
{
    if p.len() == 0 {
        -1
    } else if p.last() == '/' {
        p.len() - 1
    } else {
        sep_index(p.drop_last())
    }
}

pub proof fn lemma_sep_index_bounds(p: Seq<char>)
    ensures
        -1 <= sep_index(p) < p.len(),
        sep_index(p) >= 0 ==> p[sep_index(p)] == '/',
        forall|k: int| sep_index(p) < k < p.len() ==> p[k] != '/',
    decreases p.len(),
{
    if p.len() > 0 && p.last() != '/' {
        lemma_sep_index_bounds(p.drop_last());
        assert forall|k: int| sep_index(p) < k < p.len() implies p[k] != '/' by {
            if k < p.len() - 1 {
                assert(p.drop_last()[k] == p[k]);
            }
        }
    }
}

/// The text after the last `/` (the whole path when it has none).
pub open spec fn base_name(p: Seq<char>) -> Seq<char> {
    p.subrange(sep_index(p) + 1, p.len() as int)
}

/// The text before the last `/` (empty when it has none).
pub open spec fn dir_name(p: Seq<char>) -> Seq<char> {
    if sep_index(p) < 0 {
        Seq::<char>::empty()
    } else {
        p.subrange(0, sep_index(p))
    }
}

/// `name` appended to `base` with one `/` between them.
pub open spec fn path_join(base: Seq<char>, name: Seq<char>) -> Seq<char> {
    if base.len() == 0 {
        name
    } else if base.last() == '/' {
        base + name
    } else {
        base + seq!['/'] + name
    }
}

/// Position just after the last `/` of `p`.
fn name_start(p: &str) -> (r: usize)
    ensures
        r == sep_index(p@) + 1,
{
    let mut j = p.unicode_len();
    assert(p@.take(j as int) =~= p@);
    while j > 0 && p.get_char(j - 1) != '/'
        invariant
            j <= p@.len(),
            sep_index(p@) == sep_index(p@.take(j as int)),
        decreases j,
    {
        assert(p@.take(j as int).drop_last() =~= p@.take(j - 1));
        j = j - 1;
    }
    j
}

/// The last component of a path.
pub fn base_name_of(p: &str) -> (r: String)
    ensures
        r@ == base_name(p@),
{
    proof {
        lemma_sep_index_bounds(p@);
    }
    let k = name_start(p);
    String::from_str(p.substring_char(k, p.unicode_len()))
}

/// The path without its last component.
pub fn dir_name_of(p: &str) -> (r: String)
    ensures
        r@ == dir_name(p@),
{
    proof {
        lemma_sep_index_bounds(p@);
    }
    let k = name_start(p);
    if k == 0 {
        String::new()
    } else {
        String::from_str(p.substring_char(0, k - 1))
    }
}

/// Joins two path pieces with a single `/`.
pub fn join_path(base: &str, name: &str) -> (r: String)
    ensures
        r@ == path_join(base@, name@),
{
    let n = base.unicode_len();
    let mut r = String::from_str(base);
    if n == 0 {
        return String::from_str(name);
    }
    if base.get_char(n - 1) != '/' {
        proof {
            reveal_strlit("/");
        }
        r.append("/");
    }
    r.append(name);
    r
}

/// The string without white space at either end.
pub fn trim_text(s: &str) -> (r: String)
    ensures
        r@ == trimmed(s@),
{
    let n = s.unicode_len();
    let (p, q) = trimmed_range(s, 0, n);
    assert(s@.subrange(0, n as int) =~= s@);
    String::from_str(s.substring_char(p, q))
}

/// The HTML entity for a character that needs one, else the character.
pub open spec fn escape_char(c: char) -> Seq<char> {
    if c == '&' {
        "&amp;"@
    } else if c == '<' {
        "&lt;"@
    } else if c == '>' {
        "&gt;"@
    } else if c == '"' {
        "&quot;"@
    } else if c == '\'' {
        "&#39;"@
    } else {
        seq![c]
    }
}

/// Text with HTML's special characters written as entities.
pub open spec fn escaped_html(s: Seq<char>) -> Seq<char>
    decreases s.len(),
{
    if s.len() == 0 {
        Seq::empty()
    } else {
        escaped_html(s.drop_last()) + escape_char(s.last())
    }
}

/// Escapes text for an HTML message.
pub fn escape_html(input: &str) -> (r: String)
    ensures
        r@ == escaped_html(input@),
{
    let n = input.unicode_len();
    let mut r = String::new();
    let mut i: usize = 0;
    assert(input@.take(0) =~= Seq::<char>::empty());
    while i < n
        invariant
            n == input@.len(),
            i <= n,
            r@ == escaped_html(input@.take(i as int)),
        decreases n - i,
    {
        let c = input.get_char(i);
        assert(input@.take(i + 1).drop_last() =~= input@.take(i as int));
        assert(input@.take(i + 1).last() == c);
        if c == '&' {
            r.append("&amp;");
        } else if c == '<' {
            r.append("&lt;");
        } else if c == '>' {
            r.append("&gt;");
        } else if c == '"' {
            r.append("&quot;");
        } else if c == '\'' {
            r.append("&#39;");
        } else {
            let one = input.substring_char(i, i + 1);
            assert(one@ =~= seq![c]);
            r.append(one);
        }
        i = i + 1;
    }
    assert(input@.take(n as int) =~= input@);
    r
}

} // verus!
