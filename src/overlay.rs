//! Decisions of the overlay engine: option strings, staged mounting of long
//! layer lists, and restoring the mount points below an overlay.
use vstd::prelude::*;
use crate::text::views;
use vstd::string::StringSliceAdditionalSpecFns;

verus! {

/// Above this many bytes of `lowerdir` option the mount is staged.
pub const MAX_LOWERDIR_BYTES: usize = 4000;

/// The joined `lowerdir` size each staged batch stays within.
pub const STAGE_BATCH_BYTES: usize = 3500;

/// Size in bytes of the UTF-8 encoding, as `str::len` reports it.
pub open spec fn byte_len(s: Seq<char>) -> nat {
    (vstd::utf8::encode_utf8(s).len() as usize) as nat
}

/// Byte size of a string.
pub fn byte_size(s: &str) -> (r: usize)
    ensures
        r == byte_len(s@),
{
    let r = s.len();
    assert(s.spec_bytes() == vstd::utf8::encode_utf8(s@));
    r
}

/// The entries joined with `:`.
pub open spec fn colon_join(s: Seq<Seq<char>>) -> Seq<char>
    decreases s.len(),
{
    if s.len() == 0 {
        Seq::empty()
    } else if s.len() == 1 {
        s[0]
    } else {
        colon_join(s.drop_last()) + seq![':'] + s.last()
    }
}

/// Byte size of the entries joined with `:`.
pub open spec fn joined_len(s: Seq<Seq<char>>) -> nat
    decreases s.len(),
{
    if s.len() == 0 {
        0
    } else if s.len() == 1 {
        byte_len(s[0])
    } else {
        joined_len(s.drop_last()) + 1 + byte_len(s.last())
    }
}

/// The `lowerdir` option: the layers, highest precedence first, then `lowest`.
pub fn lowerdir_option(lowers: &Vec<String>, lowest: &str) -> (r: String)
    ensures
        r@ == colon_join(views(lowers@).push(lowest@)),
{
    let ghost all = views(lowers@).push(lowest@);
    let mut r = String::new();
    let mut i: usize = 0;
    proof {
        reveal_strlit(":");
    }
    assert(all.take(0) =~= Seq::<Seq<char>>::empty());
    while i < lowers.len()
        invariant
            i <= lowers@.len(),
            all == views(lowers@).push(lowest@),
            r@ == colon_join(all.take(i as int)),
            ":"@ == seq![':'],
        decreases lowers@.len() - i,
    {
        if i > 0 {
            r.append(":");
        }
        r.append(lowers[i].as_str());
        assert(all.take(i + 1).drop_last() =~= all.take(i as int));
        i = i + 1;
    }
    if i > 0 {
        r.append(":");
    }
    r.append(lowest);
    assert(all.take(i + 1).drop_last() =~= all.take(i as int));
    assert(all.take(i + 1) =~= all);
    r
}

/// Option text for the legacy `mount(2)` interface.
pub open spec fn legacy_data(lowerdir: Seq<char>, upper: Option<String>, work: Option<String>) -> Seq<
    char,
> {
    match (upper, work) {
        (Some(u), Some(w)) => "lowerdir="@ + lowerdir + ",upperdir="@ + u@ + ",workdir="@ + w@,
        _ => "lowerdir="@ + lowerdir,
    }
}

/// Builds the legacy option string; upper and work dirs go in only together.
pub fn legacy_options(lowerdir: &str, upperdir: &Option<String>, workdir: &Option<String>) -> (r:
    String)
    ensures
        r@ == legacy_data(lowerdir@, *upperdir, *workdir),
{
    let mut r = String::from_str("lowerdir=");
    r.append(lowerdir);
    match (upperdir, workdir) {
        (Some(u), Some(w)) => {
            r.append(",upperdir=");
            r.append(u.as_str());
            r.append(",workdir=");
            r.append(w.as_str());
        },
        _ => {},
    }
    r
}

/// Whether the overlay must be mounted in stages: the `lowerdir` option is
/// too long and neither an upper nor a work dir was requested.
pub fn needs_staging(lowerdir: &str, has_upper: bool, has_work: bool) -> (r: bool)
    ensures
        r == (byte_len(lowerdir@) > MAX_LOWERDIR_BYTES && !has_upper && !has_work),
{
    byte_size(lowerdir) > MAX_LOWERDIR_BYTES && !has_upper && !has_work
}

/// The batches laid end to end.
pub open spec fn concat_all(bs: Seq<Seq<Seq<char>>>) -> Seq<Seq<char>>
    decreases bs.len(),
{
    if bs.len() == 0 {
        Seq::empty()
    } else {
        concat_all(bs.drop_last()) + bs.last()
    }
}

/// A batch holds one layer, or several whose joined size fits the budget.
pub open spec fn batch_fits(b: Seq<Seq<char>>, budget: nat) -> bool {
    b.len() > 0 && (b.len() == 1 || joined_len(b) <= budget)
}

/// The views of the batches.
pub open spec fn batch_views(bs: Seq<Vec<String>>) -> Seq<Seq<Seq<char>>> {
    bs.map_values(|b: Vec<String>| views(b@))
}

/// Greedy batching: in order, each batch fits, and none could have taken
/// the first layer of the batch after it.
pub open spec fn greedy_batches(bs: Seq<Seq<Seq<char>>>, layers: Seq<Seq<char>>, budget: nat) -> bool {
    &&& concat_all(bs) == layers
    &&& forall|b: int| 0 <= b < bs.len() ==> batch_fits(#[trigger] bs[b], budget)
    &&& forall|b: int|
        0 <= b < bs.len() - 1 ==> joined_len(#[trigger] bs[b].push(bs[b + 1][0])) > budget
}

/// Splits the layers into batches whose joined size stays within `budget`.
pub fn chunk_layers(layers: &Vec<String>, budget: usize) -> (r: Vec<Vec<String>>)
    ensures
        greedy_batches(batch_views(r@), views(layers@), budget as nat),
{
    let ghost ls = views(layers@);
    let mut batches: Vec<Vec<String>> = Vec::new();
    let mut cur: Vec<String> = Vec::new();
    let mut cur_len: usize = 0;
    let mut i: usize = 0;
    assert(ls.take(0) =~= Seq::<Seq<char>>::empty());
    assert(concat_all(batch_views(batches@)) + views(cur@) =~= ls.take(0));
    while i < layers.len()
        invariant
            i <= layers@.len(),
            ls == views(layers@),
            concat_all(batch_views(batches@)) + views(cur@) == ls.take(i as int),
            forall|b: int|
                0 <= b < batch_views(batches@).len() ==> batch_fits(
                    #[trigger] batch_views(batches@)[b],
                    budget as nat,
                ),
            forall|b: int|
                0 <= b < batch_views(batches@).len() - 1 ==> joined_len(
                    #[trigger] batch_views(batches@)[b].push(batch_views(batches@)[b + 1][0]),
                ) > budget,
            cur@.len() > 0 ==> cur_len == joined_len(views(cur@)),
            cur@.len() > 1 ==> cur_len <= budget,
            batches@.len() > 0 ==> cur@.len() > 0,
            batches@.len() > 0 ==> joined_len(
                batch_views(batches@).last().push(views(cur@)[0]),
            ) > budget,
        decreases layers@.len() - i,
    {
        let len = byte_size(layers[i].as_str());
        let ghost bv = batch_views(batches@);
        let ghost x = ls[i as int];
        assert(ls.take(i + 1) =~= ls.take(i as int).push(x));
        if cur.len() == 0 {
            cur.push(layers[i].clone());
            cur_len = len;
            assert(views(cur@) =~= seq![x]);
            assert(concat_all(batch_views(batches@)) + views(cur@) =~= ls.take(i + 1));
        } else if cur_len < budget && len <= budget - cur_len - 1 {
            let ghost old_cur = views(cur@);
            cur.push(layers[i].clone());
            cur_len = cur_len + 1 + len;
            assert(views(cur@) =~= old_cur.push(x));
            assert(views(cur@).drop_last() =~= old_cur);
            assert(views(cur@)[0] == old_cur[0]);
            assert(concat_all(batch_views(batches@)) + views(cur@) =~= ls.take(i + 1));
        } else {
            let ghost old_cur = views(cur@);
            assert(joined_len(old_cur.push(x)) > budget) by {
                assert(old_cur.push(x).drop_last() =~= old_cur);
            }
            let mut fresh: Vec<String> = Vec::new();
            fresh.push(layers[i].clone());
            batches.push(cur);
            cur = fresh;
            cur_len = len;
            proof {
                let nb = batch_views(batches@);
                assert(nb =~= bv.push(old_cur));
                assert(views(cur@) =~= seq![x]);
                assert(nb.drop_last() =~= bv);
                assert(concat_all(nb) + views(cur@) =~= ls.take(i + 1));
                assert forall|b: int| 0 <= b < nb.len() - 1 implies joined_len(
                    #[trigger] nb[b].push(nb[b + 1][0]),
                ) > budget by {
                    if b == nb.len() - 2 {
                        assert(nb[b] == bv.last());
                    }
                }
            }
        }
        i = i + 1;
    }
    assert(ls.take(layers@.len() as int) =~= ls);
    if cur.len() > 0 {
        let ghost bv = batch_views(batches@);
        let ghost old_cur = views(cur@);
        batches.push(cur);
        proof {
            let nb = batch_views(batches@);
            assert(nb =~= bv.push(old_cur));
            assert(nb.drop_last() =~= bv);
            assert forall|b: int| 0 <= b < nb.len() - 1 implies joined_len(
                #[trigger] nb[b].push(nb[b + 1][0]),
            ) > budget by {
                if b == nb.len() - 2 {
                    assert(nb[b] == bv.last());
                }
            }
        }
    } else {
        assert(concat_all(batch_views(batches@)) =~= ls);
    }
    batches
}

/// One overlay mount of a staged sequence.
pub struct StageStep {
    pub lowers: Vec<String>,
    pub target: String,
}

/// Where step `t` of a staged mount goes: a staging directory, or the real
/// destination for the last step.
pub open spec fn stage_target(dest: Seq<char>, staging: Seq<Seq<char>>, nb: int, t: int) -> Seq<char> {
    if t == nb - 1 {
        dest
    } else {
        staging[t]
    }
}

/// The layer below the batch of step `t`: the stock root first, then what
/// the previous step mounted.
pub open spec fn stage_base(
    lowest: Seq<char>,
    dest: Seq<char>,
    staging: Seq<Seq<char>>,
    nb: int,
    t: int,
) -> Seq<char> {
    if t == 0 {
        lowest
    } else {
        stage_target(dest, staging, nb, t - 1)
    }
}

/// Steps of a staged overlay mount: batches are taken in reverse order, each
/// mounted over the result of the one before it, the last onto `dest`.
pub fn staged_steps(batches: &Vec<Vec<String>>, lowest: &str, dest: &str, staging: &Vec<String>) -> (r:
    Vec<StageStep>)
    requires
        batches@.len() >= 1,
        staging@.len() + 1 == batches@.len(),
    ensures
        r@.len() == batches@.len(),
        forall|t: int|
            0 <= t < r@.len() ==> views((#[trigger] r@[t]).lowers@) == views(
                batches@[batches@.len() - 1 - t]@,
            ).push(stage_base(lowest@, dest@, views(staging@), batches@.len() as int, t))
                && r@[t].target@ == stage_target(dest@, views(staging@), batches@.len() as int, t),
{
    let nb = batches.len();
    let ghost st = views(staging@);
    let mut steps: Vec<StageStep> = Vec::new();
    let mut base = String::from_str(lowest);
    let mut t: usize = 0;
    while t < nb
        invariant
            nb == batches@.len(),
            staging@.len() + 1 == nb,
            st == views(staging@),
            t <= nb,
            steps@.len() == t,
            base@ == stage_base(lowest@, dest@, st, nb as int, t as int),
            forall|u: int|
                0 <= u < t ==> views((#[trigger] steps@[u]).lowers@) == views(
                    batches@[nb - 1 - u]@,
                ).push(stage_base(lowest@, dest@, st, nb as int, u)) && steps@[u].target@
                    == stage_target(dest@, st, nb as int, u),
        decreases nb - t,
    {
        let batch = &batches[nb - 1 - t];
        let mut lowers: Vec<String> = Vec::new();
        let mut k: usize = 0;
        while k < batch.len()
            invariant
                k <= batch@.len(),
                views(lowers@) == views(batch@).take(k as int),
            decreases batch@.len() - k,
        {
            let ghost prev = views(lowers@);
            lowers.push(batch[k].clone());
            assert(views(lowers@) =~= prev.push(views(batch@)[k as int]));
            assert(views(lowers@) =~= views(batch@).take(k + 1));
            k = k + 1;
        }
        assert(views(batch@).take(batch@.len() as int) =~= views(batch@));
        let ghost prev = views(lowers@);
        lowers.push(base.clone());
        assert(views(lowers@) =~= prev.push(base@));
        let target = if t == nb - 1 {
            String::from_str(dest)
        } else {
            staging[t].clone()
        };
        base = target.clone();
        steps.push(StageStep { lowers, target });
        t = t + 1;
    }
    steps
}

/// `m` lies strictly below `root` in the path hierarchy.
pub open spec fn strictly_under(m: Seq<char>, root: Seq<char>) -> bool {
    &&& m.len() > root.len()
    &&& m.take(root.len() as int) == root
    &&& ((root.len() > 0 && root.last() == '/') || m[root.len() as int] == '/')
}

/// Whether `m` lies strictly below `root`.
pub fn is_strictly_under(m: &str, root: &str) -> (r: bool)
    ensures
        r == strictly_under(m@, root@),
{
    let lm = m.unicode_len();
    let lr = root.unicode_len();
    if lm <= lr {
        return false;
    }
    let mut i: usize = 0;
    while i < lr
        invariant
            lm == m@.len(),
            lr == root@.len(),
            lr < lm,
            i <= lr,
            m@.take(i as int) == root@.take(i as int),
        decreases lr - i,
    {
        if m.get_char(i) != root.get_char(i) {
            assert(m@.take(lr as int)[i as int] != root@[i as int]);
            return false;
        }
        assert(m@.take(i + 1) =~= m@.take(i as int).push(m@[i as int]));
        assert(root@.take(i + 1) =~= root@.take(i as int).push(root@[i as int]));
        i = i + 1;
    }
    assert(root@.take(lr as int) =~= root@);
    (lr > 0 && root.get_char(lr - 1) == '/') || m.get_char(lr) == '/'
}

/// Mount points strictly below `root`, each once, ascending.
pub fn child_mount_points(points: &Vec<String>, root: &str) -> (r: Vec<String>)
    ensures
        crate::text::strictly_sorted(views(r@)),
        views(r@).to_set() == views(points@).to_set().filter(|m: Seq<char>| strictly_under(m, root@)),
{
    let ghost ps = views(points@);
    let ghost f = |m: Seq<char>| strictly_under(m, root@);
    let mut out: Vec<String> = Vec::new();
    let mut i: usize = 0;
    assert(views(out@).to_set() =~= ps.take(0).to_set().filter(f));
    while i < points.len()
        invariant
            i <= points@.len(),
            ps == views(points@),
            f == (|m: Seq<char>| strictly_under(m, root@)),
            crate::text::strictly_sorted(views(out@)),
            views(out@).to_set() == ps.take(i as int).to_set().filter(f),
        decreases points@.len() - i,
    {
        let keep = is_strictly_under(points[i].as_str(), root);
        if keep {
            crate::text::insert_sorted(&mut out, points[i].clone());
        }
        proof {
            let t = ps.take(i as int);
            let x = ps[i as int];
            assert(ps.take(i + 1) =~= t.push(x));
            assert forall|y: Seq<char>| t.push(x).to_set().filter(f).contains(y) <==> (if f(x) {
                t.to_set().filter(f).insert(x)
            } else {
                t.to_set().filter(f)
            }).contains(y) by {
                if y == x {
                    assert(t.push(x)[t.len() as int] == x);
                }
                if t.push(x).to_set().contains(y) && y != x {
                    let k = choose|k: int| 0 <= k < t.push(x).len() && t.push(x)[k] == y;
                    assert(t[k] == y);
                }
                if t.to_set().contains(y) {
                    let k = choose|k: int| 0 <= k < t.len() && t[k] == y;
                    assert(t.push(x)[k] == y);
                }
            }
            assert(views(out@).to_set() =~= ps.take(i + 1).to_set().filter(f));
        }
        i = i + 1;
    }
    assert(ps.take(points@.len() as int) =~= ps);
    out
}

/// Drops leading slashes.
pub open spec fn strip_slashes(s: Seq<char>) -> Seq<char>
    decreases s.len(),
{
    if s.len() > 0 && s[0] == '/' {
        strip_slashes(s.drop_first())
    } else {
        s
    }
}

/// The path of `m` relative to `root`, without leading slashes.
pub open spec fn relative_to(m: Seq<char>, root: Seq<char>) -> Seq<char> {
    strip_slashes(m.skip(root.len() as int))
}

/// Relative path of a child mount point below the overlay root.
pub fn relative_path(m: &str, root: &str) -> (r: String)
    requires
        strictly_under(m@, root@),
    ensures
        r@ == relative_to(m@, root@),
{
    let lm = m.unicode_len();
    let mut i = root.unicode_len();
    assert(m@.subrange(i as int, lm as int) =~= m@.skip(i as int));
    while i < lm && m.get_char(i) == '/'
        invariant
            root@.len() <= i <= lm,
            lm == m@.len(),
            relative_to(m@, root@) == strip_slashes(m@.subrange(i as int, lm as int)),
        decreases lm - i,
    {
        assert(m@.subrange(i as int, lm as int).drop_first() =~= m@.subrange(i + 1, lm as int));
        i = i + 1;
    }
    if i == lm {
        assert(m@.subrange(i as int, lm as int) =~= Seq::<char>::empty());
    }
    String::from_str(m.substring_char(i, lm))
}

/// How a child mount point below the new overlay is restored.
pub enum ChildPlan {
    /// Bind the stock content back over it.
    BindStock,
    /// Mount an overlay of these module directories over the stock content.
    Overlay(Vec<String>),
    /// Leave it as the new overlay shows it.
    Skip,
}

/// Module directories holding the relative path as a directory, in order.
pub open spec fn child_lowers(roots: Seq<Seq<char>>, rel: Seq<char>, is_dir: Seq<bool>, k: int) -> Seq<
    Seq<char>,
>
    decreases k,
{
    if k <= 0 {
        Seq::empty()
    } else if is_dir[k - 1] {
        child_lowers(roots, rel, is_dir, k - 1).push(crate::text::path_join(roots[k - 1], rel))
    } else {
        child_lowers(roots, rel, is_dir, k - 1)
    }
}

/// Decides how to restore a child mount point. For each module root `k`,
/// `exists[k]` and `is_dir[k]` tell what `<root k>/<relative>` is;
/// `stock_is_dir` tells whether the stock content there is a directory.
pub fn plan_child(
    module_roots: &Vec<String>,
    relative: &str,
    exists: &Vec<bool>,
    is_dir: &Vec<bool>,
    stock_is_dir: bool,
) -> (r: ChildPlan)
    requires
        exists@.len() == module_roots@.len(),
        is_dir@.len() == module_roots@.len(),
        forall|k: int| 0 <= k < is_dir@.len() && #[trigger] is_dir@[k] ==> exists@[k],
    ensures
        (forall|k: int| 0 <= k < exists@.len() ==> !#[trigger] exists@[k]) ==> r is BindStock,
        (exists|k: int| 0 <= k < exists@.len() && #[trigger] exists@[k]) ==> {
            let lowers = child_lowers(views(module_roots@), relative@, is_dir@, is_dir@.len() as int);
            let blocked = exists|k: int| 0 <= k < exists@.len() && #[trigger] exists@[k] && !is_dir@[k];
            if !stock_is_dir || blocked || lowers.len() == 0 {
                r is Skip
            } else {
                r matches ChildPlan::Overlay(v) && views(v@) == lowers
            }
        },
{
    let n = module_roots.len();
    let mut any = false;
    let mut blocked = false;
    let mut lowers: Vec<String> = Vec::new();
    let mut k: usize = 0;
    while k < n
        invariant
            n == module_roots@.len(),
            exists@.len() == n,
            is_dir@.len() == n,
            k <= n,
            forall|j: int| 0 <= j < is_dir@.len() && #[trigger] is_dir@[j] ==> exists@[j],
            any == exists|j: int| 0 <= j < k && #[trigger] exists@[j],
            blocked == exists|j: int| 0 <= j < k && #[trigger] exists@[j] && !is_dir@[j],
            views(lowers@) == child_lowers(views(module_roots@), relative@, is_dir@, k as int),
        decreases n - k,
    {
        if exists[k] {
            any = true;
            if !is_dir[k] {
                blocked = true;
            }
        }
        if is_dir[k] {
            let ghost prev = views(lowers@);
            lowers.push(crate::text::join_path(module_roots[k].as_str(), relative));
            assert(views(lowers@) =~= prev.push(
                crate::text::path_join(views(module_roots@)[k as int], relative@),
            ));
        }
        k = k + 1;
    }
    if !any {
        ChildPlan::BindStock
    } else if !stock_is_dir || blocked || lowers.len() == 0 {
        ChildPlan::Skip
    } else {
        ChildPlan::Overlay(lowers)
    }
}

} // verus!
