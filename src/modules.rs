//! Module metadata for the front-end: mode labels, `module.prop` fields and
//! the status description, plus the choice of configuration at start-up.
use vstd::prelude::*;
use crate::granary::{decimal, decimal_string};
use crate::inventory::MountMode;
use crate::text::{split_on, str_eq, trimmed, trimmed_range};

verus! {

/// The mode label the front-end shows for a module's default mode.
pub open spec fn mode_label(m: MountMode) -> Seq<char> {
    match m {
        MountMode::Overlay => "auto"@,
        MountMode::Magic => "magic"@,
        MountMode::Ignore => "ignore"@,
    }
}

/// Label of a module's default mode.
pub fn mode_string(m: MountMode) -> (r: String)
    ensures
        r@ == mode_label(m),
{
    match m {
        MountMode::Overlay => String::from_str("auto"),
        MountMode::Magic => String::from_str("magic"),
        MountMode::Ignore => String::from_str("ignore"),
    }
}

pub open spec fn storage_label(mode: Seq<char>) -> Seq<char> {
    if mode == "tmpfs"@ {
        "Tmpfs"@
    } else if mode == "erofs"@ {
        "EROFS"@
    } else {
        "Ext4"@
    }
}

pub open spec fn storage_emoji(mode: Seq<char>) -> Seq<char> {
    if mode == "tmpfs"@ {
        "🐾"@
    } else if mode == "erofs"@ {
        "🚀"@
    } else {
        "💿"@
    }
}

/// The `description=` line of the module's own `module.prop` after a boot.
pub open spec fn description_line(mode: Seq<char>, nuke_active: bool, overlay: nat, magic: nat) -> Seq<char> {
    "description=✅ Running～ ("@ + storage_label(mode) + ") "@ + storage_emoji(mode)
        + " | Overlay: "@ + decimal(overlay) + " | Magic: "@ + decimal(magic) + (if nuke_active {
        " | Activated ✨"@
    } else {
        ""@
    })
}

/// Builds the status description shown in the manager after a boot.
pub fn description_text(storage_mode: &str, nuke_active: bool, overlay_count: u64, magic_count: u64) -> (r:
    String)
    ensures
        r@ == description_line(storage_mode@, nuke_active, overlay_count as nat, magic_count as nat),
{
    let is_tmpfs = str_eq(storage_mode, "tmpfs");
    let is_erofs = str_eq(storage_mode, "erofs");
    let mut r = String::from_str("description=✅ Running～ (");
    r.append(if is_tmpfs {
        "Tmpfs"
    } else if is_erofs {
        "EROFS"
    } else {
        "Ext4"
    });
    r.append(") ");
    r.append(if is_tmpfs {
        "🐾"
    } else if is_erofs {
        "🚀"
    } else {
        "💿"
    });
    r.append(" | Overlay: ");
    r.append(decimal_string(overlay_count).as_str());
    r.append(" | Magic: ");
    r.append(decimal_string(magic_count).as_str());
    r.append(if nuke_active {
        " | Activated ✨"
    } else {
        ""
    });
    r
}

/// Whether a module directory is an enabled ZygiskSU install: a directory
/// named `zygisksu` with a `module.prop`, not disabled, removed or skipped.
pub open spec fn zygisksu_entry(
    name: Seq<char>,
    is_dir: bool,
    has_prop: bool,
    disabled: bool,
    removed: bool,
    skip_mount: bool,
) -> bool {
    is_dir && has_prop && !disabled && !removed && !skip_mount && name == "zygisksu"@
}

/// Decides whether a module directory is an enabled ZygiskSU install.
pub fn is_zygisksu_entry(
    name: &str,
    is_dir: bool,
    has_prop: bool,
    disabled: bool,
    removed: bool,
    skip_mount: bool,
) -> (r: bool)
    ensures
        r == zygisksu_entry(name@, is_dir, has_prop, disabled, removed, skip_mount),
{
    is_dir && has_prop && !disabled && !removed && !skip_mount && str_eq(name, "zygisksu")
}

/// Why a configuration file could not be used.
#[derive(PartialEq, Eq, Structural, Clone, Copy, Debug)]
pub enum ConfigLoadError {
    NotFound,
    Invalid,
}

/// Which configuration the daemon runs with: a custom path must load; the
/// default path may be missing, in which case the defaults apply.
pub fn choose_config(custom_path: bool, loaded: Result<crate::config::Config, ConfigLoadError>) -> (r:
    Result<crate::config::Config, ConfigLoadError>)
    ensures
        loaded is Ok ==> r == loaded,
        loaded == Err::<crate::config::Config, ConfigLoadError>(ConfigLoadError::Invalid) ==> r
            == loaded,
        loaded == Err::<crate::config::Config, ConfigLoadError>(ConfigLoadError::NotFound) ==> (
        if custom_path {
            r == loaded
        } else {
            r matches Ok(c) && c.is_default()
        }),
{
    match loaded {
        Ok(c) => Ok(c),
        Err(ConfigLoadError::NotFound) => {
            if custom_path {
                Err(ConfigLoadError::NotFound)
            } else {
                Ok(<crate::config::Config as Default>::default())
            }
        },
        Err(e) => Err(e),
    }
}

/// Index of the first `=`, or -1 when there is none.
pub open spec fn eq_index(l: Seq<char>) -> int
    decreases l.len(),
{
    if l.len() == 0 {
        -1
    } else if l[0] == '=' {
        0
    } else {
        let r = eq_index(l.drop_first());
        if r < 0 {
            -1
        } else {
            r + 1
        }
    }
}

proof fn lemma_eq_index_bounds(l: Seq<char>)
    ensures
        -1 <= eq_index(l) < l.len(),
    decreases l.len(),
{
    if l.len() > 0 && l[0] != '=' {
        lemma_eq_index_bounds(l.drop_first());
    }
}

/// The value a `module.prop` gives `key`: the trimmed text after the first
/// `=` of the last line whose trimmed text before it is `key`; empty if none.
pub open spec fn prop_value(lines: Seq<Seq<char>>, key: Seq<char>) -> Seq<char>
    decreases lines.len(),
{
    if lines.len() == 0 {
        Seq::empty()
    } else {
        let l = lines.last();
        let e = eq_index(l);
        if e >= 0 && trimmed(l.subrange(0, e)) == key {
            trimmed(l.subrange(e + 1, l.len() as int))
        } else {
            prop_value(lines.drop_last(), key)
        }
    }
}

proof fn lemma_prop_value_push(done: Seq<Seq<char>>, l: Seq<char>, key: Seq<char>)
    ensures
        prop_value(done.push(l), key) == (if eq_index(l) >= 0 && trimmed(l.subrange(0, eq_index(l)))
            == key {
            trimmed(l.subrange(eq_index(l) + 1, l.len() as int))
        } else {
            prop_value(done, key)
        }),
{
    assert(done.push(l).drop_last() =~= done);
}

/// Display fields of a module, read from its `module.prop`.
pub struct ModuleProp {
    pub name: String,
    pub version: String,
    pub author: String,
    pub description: String,
}

impl ModuleProp {
    /// The fields as `content` gives them, line by line.
    pub open spec fn matches(&self, lines: Seq<Seq<char>>) -> bool {
        &&& self.name@ == prop_value(lines, "name"@)
        &&& self.version@ == prop_value(lines, "version"@)
        &&& self.author@ == prop_value(lines, "author"@)
        &&& self.description@ == prop_value(lines, "description"@)
    }

    /// Reads `key=value` lines; other lines are ignored and later lines win.
    pub fn parse(content: &str) -> (r: ModuleProp)
        ensures
            r.matches(split_on(content@, '\n')),
    {
        let n = content.unicode_len();
        let mut prop = ModuleProp {
            name: String::new(),
            version: String::new(),
            author: String::new(),
            description: String::new(),
        };
        let mut st: usize = 0;
        let mut i: usize = 0;
        let ghost mut done: Seq<Seq<char>> = Seq::empty();
        assert(content@.take(0) =~= Seq::<char>::empty());
        assert(content@.subrange(0, 0) =~= Seq::<char>::empty());
        while i < n
            invariant
                n == content@.len(),
                st <= i <= n,
                split_on(content@.take(i as int), '\n') == done.push(
                    content@.subrange(st as int, i as int),
                ),
                prop.matches(done),
            decreases n - i,
        {
            let c = content.get_char(i);
            assert(content@.take(i + 1).drop_last() =~= content@.take(i as int));
            assert(content@.take(i + 1).last() == c);
            if c == '\n' {
                let ghost line = content@.subrange(st as int, i as int);
                read_line(&mut prop, content, st, i);
                proof {
                    let nd = done.push(line);
                    assert(nd.drop_last() =~= done);
                    assert(content@.subrange(i + 1, i + 1) =~= Seq::<char>::empty());
                    done = nd;
                }
                st = i + 1;
            } else {
                proof {
                    let r = done.push(content@.subrange(st as int, i as int));
                    assert(r.last() == content@.subrange(st as int, i as int));
                    assert(content@.subrange(st as int, i as int).push(c) =~= content@.subrange(
                        st as int,
                        i + 1,
                    ));
                    assert(r.update(r.len() - 1, r.last().push(c)) =~= done.push(
                        content@.subrange(st as int, i + 1),
                    ));
                }
            }
            i = i + 1;
        }
        let ghost line = content@.subrange(st as int, n as int);
        read_line(&mut prop, content, st, n);
        proof {
            let nd = done.push(line);
            assert(nd.drop_last() =~= done);
            assert(content@.take(n as int) =~= content@);
        }
        prop
    }
}

/// Position of the first `=` in `s[a..b]`, relative to `a`.
fn find_eq(s: &str, a: usize, b: usize) -> (r: Option<usize>)
    requires
        a <= b <= s@.len(),
    ensures
        eq_index(s@.subrange(a as int, b as int)) < 0 ==> r is None,
        eq_index(s@.subrange(a as int, b as int)) >= 0 ==> r == Some(
            (a + eq_index(s@.subrange(a as int, b as int))) as usize,
        ),
        r matches Some(e) ==> a <= e < b,
{
    proof {
        lemma_eq_index_bounds(s@.subrange(a as int, b as int));
    }
    let mut j = b;
    let mut found: Option<usize> = None;
    assert(s@.subrange(j as int, b as int) =~= Seq::<char>::empty());
    while j > a
        invariant
            a <= j <= b <= s@.len(),
            eq_index(s@.subrange(j as int, b as int)) < 0 ==> found is None,
            eq_index(s@.subrange(j as int, b as int)) >= 0 ==> found == Some(
                (j + eq_index(s@.subrange(j as int, b as int))) as usize,
            ),
        decreases j,
    {
        assert(s@.subrange(j - 1, b as int).drop_first() =~= s@.subrange(j as int, b as int));
        assert(s@.subrange(j - 1, b as int)[0] == s@[j - 1]);
        if s.get_char(j - 1) == '=' {
            found = Some(j - 1);
        }
        j = j - 1;
    }
    found
}

/// Applies one line of a `module.prop` to the fields read so far.
fn read_line(prop: &mut ModuleProp, s: &str, a: usize, b: usize)
    requires
        a <= b <= s@.len(),
    ensures
        forall|done: Seq<Seq<char>>| #[trigger] old(prop).matches(done) ==> final(prop).matches(
            done.push(s@.subrange(a as int, b as int)),
        ),
{
    let ghost l = s@.subrange(a as int, b as int);
    proof {
        reveal_strlit("name");
        reveal_strlit("version");
        reveal_strlit("author");
        reveal_strlit("description");
        lemma_eq_index_bounds(l);
    }
    match find_eq(s, a, b) {
        None => {},
        Some(e) => {
            let (kp, kq) = trimmed_range(s, a, e);
            let (vp, vq) = trimmed_range(s, e + 1, b);
            assert(l.subrange(0, eq_index(l)) =~= s@.subrange(a as int, e as int));
            assert(l.subrange(eq_index(l) + 1, l.len() as int) =~= s@.subrange(e + 1, b as int));
            let key = s.substring_char(kp, kq);
            let value = String::from_str(s.substring_char(vp, vq));
            assert(eq_index(l) >= 0 && e == a + eq_index(l));
            assert(key@ == trimmed(l.subrange(0, eq_index(l))));
            assert(value@ == trimmed(l.subrange(eq_index(l) + 1, l.len() as int)));
            if str_eq(key, "name") {
                prop.name = value;
            } else if str_eq(key, "version") {
                prop.version = value;
            } else if str_eq(key, "author") {
                prop.author = value;
            } else if str_eq(key, "description") {
                prop.description = value;
            }
        },
    }
    proof {
        assert forall|done: Seq<Seq<char>>| #[trigger] old(prop).matches(done) implies prop.matches(
            done.push(l),
        ) by {
            assert(done.push(l).drop_last() =~= done);
            assert(done.push(l).last() == l);
            lemma_prop_value_push(done, l, "name"@);
            lemma_prop_value_push(done, l, "version"@);
            lemma_prop_value_push(done, l, "author"@);
            lemma_prop_value_push(done, l, "description"@);
        }
    }
}

/// The lines of a text as a line reader yields them: split at `\n`, without
/// an empty piece after a final `\n`.
pub open spec fn text_lines(content: Seq<char>) -> Seq<Seq<char>> {
    let p = split_on(content, '\n');
    if p.len() > 0 && p.last().len() == 0 {
        p.drop_last()
    } else {
        p
    }
}

/// A line without its trailing carriage return.
pub open spec fn strip_cr(l: Seq<char>) -> Seq<char> {
    if l.len() > 0 && l.last() == '\r' {
        l.drop_last()
    } else {
        l
    }
}

/// A line of the rewritten file: a `description=` line becomes `text`.
pub open spec fn fixed_line(l: Seq<char>, text: Seq<char>) -> Seq<char> {
    let c = strip_cr(l);
    if c.len() >= 12 && c.take(12) == "description="@ {
        text
    } else {
        c
    }
}

/// The lines joined with `\n`.
pub open spec fn nl_join(ls: Seq<Seq<char>>) -> Seq<char>
    decreases ls.len(),
{
    if ls.len() == 0 {
        Seq::empty()
    } else if ls.len() == 1 {
        ls[0]
    } else {
        nl_join(ls.drop_last()) + seq!['\n'] + ls.last()
    }
}

/// The rewritten lines of the first `k` lines.
pub open spec fn fixed_lines(ls: Seq<Seq<char>>, text: Seq<char>) -> Seq<Seq<char>> {
    ls.map_values(|l: Seq<char>| fixed_line(l, text))
}

/// Appends the rewritten line `s[a..b]` to `out`, after a newline unless it
/// is the first line.
fn emit_line(out: &mut String, s: &str, a: usize, b: usize, first: bool, text: &str)
    requires
        a <= b <= s@.len(),
    ensures
        final(out)@ == old(out)@ + (if first {
            Seq::<char>::empty()
        } else {
            seq!['\n']
        }) + fixed_line(s@.subrange(a as int, b as int), text@),
{
    proof {
        reveal_strlit("\n");
        reveal_strlit("description=");
    }
    if !first {
        out.append("\n");
    }
    let ghost l = s@.subrange(a as int, b as int);
    let mut e = b;
    if b > a && s.get_char(b - 1) == '\r' {
        e = b - 1;
        assert(l.drop_last() =~= s@.subrange(a as int, e as int));
    }
    assert(strip_cr(l) =~= s@.subrange(a as int, e as int));
    let is_desc = e - a >= 12 && str_eq(s.substring_char(a, a + 12), "description=");
    if e - a >= 12 {
        assert(strip_cr(l).take(12) =~= s@.subrange(a as int, a + 12));
    }
    if is_desc {
        out.append(text);
    } else {
        out.append(s.substring_char(a, e));
    }
}

/// The `module.prop` text with each `description=` line replaced by `text`,
/// lines rejoined with `\n` and a final newline.
pub fn replace_description(content: &str, text: &str) -> (r: String)
    ensures
        r@ == nl_join(fixed_lines(text_lines(content@), text@)) + seq!['\n'],
{
    proof {
        reveal_strlit("\n");
    }
    let n = content.unicode_len();
    let mut out = String::new();
    let mut st: usize = 0;
    let mut i: usize = 0;
    let mut first = true;
    let ghost mut done: Seq<Seq<char>> = Seq::empty();
    assert(content@.take(0) =~= Seq::<char>::empty());
    assert(content@.subrange(0, 0) =~= Seq::<char>::empty());
    assert(fixed_lines(done, text@) =~= Seq::<Seq<char>>::empty());
    while i < n
        invariant
            n == content@.len(),
            st <= i <= n,
            first == (done.len() == 0),
            split_on(content@.take(i as int), '\n') == done.push(
                content@.subrange(st as int, i as int),
            ),
            out@ == nl_join(fixed_lines(done, text@)),
        decreases n - i,
    {
        let c = content.get_char(i);
        assert(content@.take(i + 1).drop_last() =~= content@.take(i as int));
        assert(content@.take(i + 1).last() == c);
        if c == '\n' {
            let ghost line = content@.subrange(st as int, i as int);
            emit_line(&mut out, content, st, i, first, text);
            first = false;
            proof {
                let nd = done.push(line);
                assert(fixed_lines(nd, text@) =~= fixed_lines(done, text@).push(
                    fixed_line(line, text@),
                ));
                assert(fixed_lines(nd, text@).drop_last() =~= fixed_lines(done, text@));
                assert(content@.subrange(i + 1, i + 1) =~= Seq::<char>::empty());
                done = nd;
            }
            st = i + 1;
        } else {
            proof {
                let r = done.push(content@.subrange(st as int, i as int));
                assert(r.last() == content@.subrange(st as int, i as int));
                assert(content@.subrange(st as int, i as int).push(c) =~= content@.subrange(
                    st as int,
                    i + 1,
                ));
                assert(r.update(r.len() - 1, r.last().push(c)) =~= done.push(
                    content@.subrange(st as int, i + 1),
                ));
            }
        }
        i = i + 1;
    }
    assert(content@.take(n as int) =~= content@);
    let ghost pieces = done.push(content@.subrange(st as int, n as int));
    assert(pieces.drop_last() =~= done);
    if st < n {
        let ghost line = content@.subrange(st as int, n as int);
        emit_line(&mut out, content, st, n, first, text);
        proof {
            let nd = done.push(line);
            assert(fixed_lines(nd, text@) =~= fixed_lines(done, text@).push(fixed_line(line, text@)));
            assert(fixed_lines(nd, text@).drop_last() =~= fixed_lines(done, text@));
        }
    } else {
        assert(content@.subrange(st as int, n as int) =~= Seq::<char>::empty());
    }
    out.append("\n");
    out
}

} // verus!
