//! Command-line argument handling for the cargo subcommand wrapper.
//!
//! The process environment (argument list, executable path, environment
//! variables) is read at the program edge and handed in here as plain
//! values; everything below is pure: splitting the argument list at the
//! first `--`, routing `-Z` flags to cargo, and querying flag values.

use vstd::prelude::*;

verus! {

/// The views of a list of strings.
pub open spec fn views_of(args: Seq<String>) -> Seq<Seq<char>> {
    args.map_values(|s: String| s@)
}

/// `p` is a prefix of `s`.
pub open spec fn spec_str_starts_with(s: Seq<char>, p: Seq<char>) -> bool {
    p.len() <= s.len() && s.subrange(0, p.len() as int) == p
}

/// `p` is a suffix of `s`.
pub open spec fn spec_str_ends_with(s: Seq<char>, p: Seq<char>) -> bool {
    p.len() <= s.len() && s.subrange(s.len() - p.len(), s.len() as int) == p
}

/// Exact character equality of two strings.
pub fn str_eq(a: &str, b: &str) -> (r: bool)
    ensures
        r == (a@ == b@),
{
    let alen = a.unicode_len();
    let blen = b.unicode_len();
    if alen != blen {
        return false;
    }
    let mut i: usize = 0;
    while i < alen
        invariant
            alen == a@.len(),
            a@.len() == b@.len(),
            i <= alen,
            forall|t: int| 0 <= t < i ==> a@[t] == b@[t],
        decreases alen - i,
    {
        if a.get_char(i) != b.get_char(i) {
            return false;
        }
        i = i + 1;
    }
    proof {
        assert(a@ =~= b@);
    }
    true
}

/// Does `s` start with `p`?
pub fn str_starts_with(s: &str, p: &str) -> (r: bool)
    ensures
        r == spec_str_starts_with(s@, p@),
{
    let slen = s.unicode_len();
    let plen = p.unicode_len();
    if plen > slen {
        return false;
    }
    let mut i: usize = 0;
    while i < plen
        invariant
            slen == s@.len(),
            plen == p@.len(),
            plen <= slen,
            i <= plen,
            forall|t: int| 0 <= t < i ==> s@[t] == p@[t],
        decreases plen - i,
    {
        if s.get_char(i) != p.get_char(i) {
            proof {
                assert(s@.subrange(0, p@.len() as int)[i as int] != p@[i as int]);
            }
            return false;
        }
        i = i + 1;
    }
    proof {
        assert(s@.subrange(0, p@.len() as int) =~= p@);
    }
    true
}

/// Does `s` end with `p`?
pub fn str_ends_with(s: &str, p: &str) -> (r: bool)
    ensures
        r == spec_str_ends_with(s@, p@),
{
    let slen = s.unicode_len();
    let plen = p.unicode_len();
    if plen > slen {
        return false;
    }
    let off = slen - plen;
    let mut i: usize = 0;
    while i < plen
        invariant
            slen == s@.len(),
            plen == p@.len(),
            plen <= slen,
            off == slen - plen,
            i <= plen,
            forall|t: int| 0 <= t < i ==> s@[off + t] == p@[t],
        decreases plen - i,
    {
        if s.get_char(off + i) != p.get_char(i) {
            proof {
                assert(s@.subrange(s@.len() - p@.len(), s@.len() as int)[i as int] != p@[i as int]);
            }
            return false;
        }
        i = i + 1;
    }
    proof {
        assert(s@.subrange(s@.len() - p@.len(), s@.len() as int) =~= p@);
    }
    true
}

/// The split of the argument list from index `i` on: ordinary arguments
/// go to the tool's own list, `-Z` flags (with their separate value, if
/// any) go to cargo, and everything after the first `--` goes to cargo.
pub open spec fn spec_split_step(
    args: Seq<Seq<char>>,
    i: int,
    rap: Seq<Seq<char>>,
    cargo: Seq<Seq<char>>,
) -> (Seq<Seq<char>>, Seq<Seq<char>>)
    decreases args.len() - i,
{
    if i < 0 || i >= args.len() {
        (rap, cargo)
    } else if args[i] == "--"@ {
        (rap, cargo + args.subrange(i + 1, args.len() as int))
    } else if spec_str_starts_with(args[i], "-Z"@) {
        if args[i] == "-Z"@ && i + 1 < args.len() {
            spec_split_step(args, i + 2, rap, cargo.push(args[i]).push(args[i + 1]))
        } else {
            spec_split_step(args, i + 1, rap, cargo.push(args[i]))
        }
    } else {
        spec_split_step(args, i + 1, rap.push(args[i]), cargo)
    }
}

/// The split of a full argument list: the first two entries (the program
/// name and the subcommand) are skipped.
pub open spec fn spec_split_args(args: Seq<Seq<char>>) -> (Seq<Seq<char>>, Seq<Seq<char>>) {
    spec_split_step(args, 2, Seq::empty(), Seq::empty())
}

/// Split the argument list at the first `--`: options before it belong
/// to the tool, except that cargo's `-Z` flags (and, for a bare `-Z`,
/// the following value) are forwarded to cargo; everything after the
/// `--` goes to cargo.
pub fn split_args_by_double_dash(args: &Vec<String>) -> (r: (Vec<String>, Vec<String>))
    ensures
        (views_of(r.0@), views_of(r.1@)) == spec_split_args(views_of(args@)),
{
    let ghost dv = views_of(args@);
    let mut rap_args: Vec<String> = Vec::new();
    let mut cargo_args: Vec<String> = Vec::new();
    proof {
        assert(views_of(rap_args@) =~= Seq::<Seq<char>>::empty());
        assert(views_of(cargo_args@) =~= Seq::<Seq<char>>::empty());
    }
    let mut i: usize = 2;
    while i < args.len()
        invariant
            dv == views_of(args@),
            dv.len() == args@.len(),
            spec_split_step(dv, i as int, views_of(rap_args@), views_of(cargo_args@))
                == spec_split_step(dv, 2, Seq::empty(), Seq::empty()),
        decreases args.len() - i,
    {
        let arg = &args[i];
        if str_eq(arg.as_str(), "--") {
            // Everything after the separator goes to cargo.
            let ghost cargo_mid = views_of(cargo_args@);
            let mut k: usize = i + 1;
            while k < args.len()
                invariant
                    dv == views_of(args@),
                    dv.len() == args@.len(),
                    i + 1 <= k <= args@.len(),
                    views_of(cargo_args@) =~= cargo_mid + dv.subrange(i + 1, k as int),
                decreases args.len() - k,
            {
                let ghost before = views_of(cargo_args@);
                cargo_args.push(args[k].clone());
                proof {
                    assert(views_of(cargo_args@) =~= before.push(dv[k as int]));
                    assert(cargo_mid + dv.subrange(i + 1, k + 1) =~= (cargo_mid + dv.subrange(
                        i + 1,
                        k as int,
                    )).push(dv[k as int]));
                }
                k = k + 1;
            }
            proof {
                assert(dv.subrange(i + 1, dv.len() as int) =~= dv.subrange(i + 1, k as int));
                assert(dv[i as int] == arg@);
            }
            return (rap_args, cargo_args);
        }
        let ghost rap_before = views_of(rap_args@);
        let ghost cargo_before = views_of(cargo_args@);
        proof {
            assert(dv[i as int] == arg@);
        }
        if str_starts_with(arg.as_str(), "-Z") {
            if str_eq(arg.as_str(), "-Z") && i + 1 < args.len() {
                cargo_args.push(arg.clone());
                cargo_args.push(args[i + 1].clone());
                proof {
                    assert(views_of(cargo_args@) =~= cargo_before.push(dv[i as int]).push(
                        dv[i + 1],
                    ));
                }
                i = i + 2;
            } else {
                cargo_args.push(arg.clone());
                proof {
                    assert(views_of(cargo_args@) =~= cargo_before.push(dv[i as int]));
                }
                i = i + 1;
            }
        } else {
            rap_args.push(arg.clone());
            proof {
                assert(views_of(rap_args@) =~= rap_before.push(dv[i as int]));
            }
            i = i + 1;
        }
    }
    (rap_args, cargo_args)
}

/// The value of flag `name` in `args` from index `i` on: either
/// `name=value` in one argument, or the argument after a bare `name`.
pub open spec fn spec_flag_value(args: Seq<Seq<char>>, name: Seq<char>, i: int) -> Option<Seq<char>>
    decreases args.len() - i,
{
    if i < 0 || i >= args.len() {
        Option::None
    } else if !spec_str_starts_with(args[i], name) {
        spec_flag_value(args, name, i + 1)
    } else if args[i].len() == name.len() {
        if i + 1 < args.len() {
            Option::Some(args[i + 1])
        } else {
            Option::None
        }
    } else if args[i][name.len() as int] == '=' {
        Option::Some(args[i].subrange(name.len() as int + 1, args[i].len() as int))
    } else {
        spec_flag_value(args, name, i + 1)
    }
}

/// Find the value of `name` in a list, given as `name=value` or as
/// `name value`.
pub fn flag_value_in(args: &Vec<String>, name: &str) -> (r: Option<String>)
    ensures
        match r {
            Option::Some(v) => spec_flag_value(views_of(args@), name@, 0) == Option::Some(v@),
            Option::None => spec_flag_value(views_of(args@), name@, 0) == Option::<Seq<char>>::None,
        },
{
    let ghost dv = views_of(args@);
    let mut i: usize = 0;
    while i < args.len()
        invariant
            dv == views_of(args@),
            dv.len() == args@.len(),
            i <= args@.len(),
            spec_flag_value(dv, name@, i as int) == spec_flag_value(dv, name@, 0),
        decreases args.len() - i,
    {
        let arg = &args[i];
        proof {
            assert(dv[i as int] == arg@);
        }
        if str_starts_with(arg.as_str(), name) {
            let alen = arg.as_str().unicode_len();
            let nlen = name.unicode_len();
            if alen == nlen {
                if i + 1 < args.len() {
                    let v = args[i + 1].clone();
                    proof {
                        assert(dv[i + 1] == v@);
                    }
                    return Option::Some(v);
                } else {
                    return Option::None;
                }
            } else if arg.as_str().get_char(nlen) == '=' {
                let v = arg.as_str().substring_char(nlen + 1, alen).to_owned();
                return Option::Some(v);
            }
        }
        i = i + 1;
    }
    Option::None
}

/// Parsed process arguments: the raw list, its two halves around the
/// first `--`, the executable path, and whether intermediate artifacts
/// should be cleaned.
pub struct Arguments {
    pub args: Vec<String>,
    pub args_group1: Vec<String>,
    pub args_group2: Vec<String>,
    pub current_exe_path: String,
    pub rap_clean: bool,
}

/// Cleaning is preferred unless the environment setting, with
/// surrounding ASCII whitespace removed and ASCII letters lowered, says
/// `false`.
pub open spec fn spec_rap_clean(setting: Option<Seq<char>>) -> bool {
    match setting {
        Option::Some(s) => !(spec_trim_lower(s) == "false"@),
        Option::None => true,
    }
}

/// ASCII whitespace.
pub open spec fn spec_is_ascii_ws(c: char) -> bool {
    c == ' ' || c == '\t' || c == '\n' || c == '\r'
}

/// Lower one ASCII letter.
pub open spec fn spec_lower_char(c: char) -> char {
    if 'A' <= c <= 'Z' {
        (((c as u8) + 32) as char)
    } else {
        c
    }
}

/// Trim ASCII whitespace on both ends, then lower ASCII letters.
pub open spec fn spec_trim_lower(s: Seq<char>) -> Seq<char> {
    spec_trim(s).map_values(|c: char| spec_lower_char(c))
}

/// The longest inner subrange without leading or trailing ASCII
/// whitespace.
pub open spec fn spec_trim(s: Seq<char>) -> Seq<char> {
    let from = spec_trim_from(s, 0);
    let to = spec_trim_to(s, s.len() as int);
    if from <= to {
        s.subrange(from, to)
    } else {
        Seq::empty()
    }
}

/// First index from `i` on that is not ASCII whitespace.
pub open spec fn spec_trim_from(s: Seq<char>, i: int) -> int
    decreases s.len() - i,
{
    if i < 0 || i >= s.len() {
        s.len() as int
    } else if spec_is_ascii_ws(s[i]) {
        spec_trim_from(s, i + 1)
    } else {
        i
    }
}

/// One past the last index below `i` that is not ASCII whitespace.
pub open spec fn spec_trim_to(s: Seq<char>, i: int) -> int
    decreases i,
{
    if i <= 0 || i > s.len() {
        0
    } else if spec_is_ascii_ws(s[i - 1]) {
        spec_trim_to(s, i - 1)
    } else {
        i
    }
}

/// Decide the cleaning behavior from the raw environment setting.
pub fn rap_clean_from_env(setting: Option<&str>) -> (r: bool)
    ensures
        r == spec_rap_clean(
            match setting {
                Option::Some(s) => Option::Some(s@),
                Option::None => Option::<Seq<char>>::None,
            },
        ),
{
    let s = match setting {
        Option::Some(s) => s,
        Option::None => { return true },
    };
    let n = s.unicode_len();
    let mut from: usize = 0;
    while from < n && is_ascii_ws(s.get_char(from))
        invariant
            n == s@.len(),
            from <= n,
            spec_trim_from(s@, from as int) == spec_trim_from(s@, 0),
        decreases n - from,
    {
        from = from + 1;
    }
    let mut to: usize = n;
    while to > from && is_ascii_ws(s.get_char(to - 1))
        invariant
            n == s@.len(),
            from <= to <= n,
            from == spec_trim_from(s@, 0),
            spec_trim_to(s@, to as int) == spec_trim_to(s@, n as int),
        decreases to,
    {
        to = to - 1;
    }
    // Compare the trimmed, lowered text with "false".
    let ghost trimmed = spec_trim(s@);
    let ghost lowered = spec_trim_lower(s@);
    proof {
        assert(from == spec_trim_from(s@, 0));
        if to > from {
            assert(spec_trim_to(s@, to as int) == to);
            assert(trimmed =~= s@.subrange(from as int, to as int));
        } else {
            lemma_trim_to_le(s@, from as int);
            assert(spec_trim_to(s@, n as int) <= from);
            assert(trimmed.len() == 0);
        }
        assert(lowered.len() == trimmed.len());
    }
    if to - from != 5 {
        proof {
            reveal_strlit("false");
            if lowered == "false"@ {
                assert(lowered.len() == 5);
            }
        }
        return true;
    }
    let mut i: usize = 0;
    let mut differs = false;
    proof {
        reveal_strlit("false");
    }
    while i < 5
        invariant
            n == s@.len(),
            from <= to <= n,
            to - from == 5,
            trimmed == spec_trim(s@),
            lowered == spec_trim_lower(s@),
            trimmed == s@.subrange(from as int, to as int),
            lowered.len() == 5,
            "false"@.len() == 5,
            i <= 5,
            differs == !(forall|t: int| 0 <= t < i ==> lowered[t] == "false"@[t]),
        decreases 5 - i,
    {
        let c = s.get_char(from + i);
        let lc = lower_char(c);
        let expect: char = if i == 0 {
            'f'
        } else if i == 1 {
            'a'
        } else if i == 2 {
            'l'
        } else if i == 3 {
            's'
        } else {
            'e'
        };
        proof {
            reveal_strlit("false");
            assert(lowered[i as int] == spec_lower_char(trimmed[i as int]));
            assert(trimmed[i as int] == s@[from + i]);
            assert(expect == "false"@[i as int]);
        }
        if lc != expect {
            differs = true;
        }
        i = i + 1;
    }
    if differs {
        proof {
            if lowered == "false"@ {
                let t = choose|t: int| 0 <= t < 5 && lowered[t] != "false"@[t];
            }
        }
        true
    } else {
        proof {
            assert(lowered =~= "false"@);
        }
        false
    }
}

proof fn lemma_trim_to_le(s: Seq<char>, i: int)
    ensures
        spec_trim_to(s, i) <= i || i < 0,
        0 <= spec_trim_to(s, i),
    decreases i,
{
    if 0 < i <= s.len() && spec_is_ascii_ws(s[i - 1]) {
        lemma_trim_to_le(s, i - 1);
    }
}

/// Is `c` ASCII whitespace?
fn is_ascii_ws(c: char) -> (r: bool)
    ensures
        r == spec_is_ascii_ws(c),
{
    c == ' ' || c == '\t' || c == '\n' || c == '\r'
}

/// Lower one ASCII letter.
fn lower_char(c: char) -> (r: char)
    ensures
        r == spec_lower_char(c),
{
    if 'A' <= c && c <= 'Z' {
        (((c as u8) + 32) as char)
    } else {
        c
    }
}

impl Arguments {
    /// Assemble the argument record from plain environment data: the raw
    /// argument list, the executable path, and the cleaning setting.
    pub fn new(args: Vec<String>, current_exe_path: String, clean_setting: Option<String>) -> (r:
        Arguments)
        ensures
            views_of(r.args@) == views_of(args@),
            (views_of(r.args_group1@), views_of(r.args_group2@)) == spec_split_args(
                views_of(args@),
            ),
            r.current_exe_path@ == current_exe_path@,
            r.rap_clean == spec_rap_clean(
                match clean_setting {
                    Option::Some(s) => Option::Some(s@),
                    Option::None => Option::<Seq<char>>::None,
                },
            ),
    {
        let (args_group1, args_group2) = split_args_by_double_dash(&args);
        let rap_clean = match &clean_setting {
            Option::Some(s) => rap_clean_from_env(Option::Some(s.as_str())),
            Option::None => rap_clean_from_env(Option::None),
        };
        Arguments { args, args_group1, args_group2, current_exe_path, rap_clean }
    }

    /// Get the value of `name` from the tool's own argument group, given
    /// as `name=val` or `name val`.
    pub fn get_arg_flag_value(&self, name: &str) -> (r: Option<String>)
        ensures
            match r {
                Option::Some(v) => spec_flag_value(views_of(self.args_group1@), name@, 0)
                    == Option::Some(v@),
                Option::None => spec_flag_value(views_of(self.args_group1@), name@, 0)
                    == Option::<Seq<char>>::None,
            },
    {
        flag_value_in(&self.args_group1, name)
    }

    /// In the rustc phase: is the crate being compiled the local one?
    /// Cargo passes the entry file as a relative path when building the
    /// local crate; the standard library's own entry files also count.
    /// A path is taken as relative when it does not begin with `/`.
    pub fn is_current_compile_crate(&self) -> (r: bool)
        ensures
            r == spec_is_current_compile_crate(views_of(self.args_group1@)),
    {
        let mut i: usize = 0;
        let ghost dv = views_of(self.args_group1@);
        while i < self.args_group1.len()
            invariant
                dv == views_of(self.args_group1@),
                dv.len() == self.args_group1@.len(),
                i <= dv.len(),
                spec_first_rs(dv, i as int) == spec_first_rs(dv, 0),
            decreases self.args_group1.len() - i,
        {
            let arg = &self.args_group1[i];
            proof {
                assert(dv[i as int] == arg@);
            }
            if str_ends_with(arg.as_str(), ".rs") {
                let relative = !str_starts_with(arg.as_str(), "/");
                proof {
                    reveal_strlit("/");
                    if arg@.len() > 0 && arg@[0] == '/' {
                        assert(arg@.subrange(0, 1) =~= "/"@);
                    }
                    if spec_str_starts_with(arg@, "/"@) {
                        assert(arg@.subrange(0, 1)[0] == arg@[0]);
                    }
                    assert(relative == spec_is_relative(arg@));
                    assert(spec_first_rs(dv, i as int) == Option::Some(dv[i as int]));
                }
                let r = relative || path_ends_with(
                    arg.as_str(),
                    "lib/rustlib/src/rust/library/std/src/lib.rs",
                ) || path_ends_with(arg.as_str(), "lib/rustlib/src/rust/library/core/src/lib.rs")
                    || path_ends_with(arg.as_str(), "lib/rustlib/src/rust/library/alloc/src/lib.rs");
                return r;
            }
            i = i + 1;
        }
        false
    }
}

/// The first argument ending in `.rs`, from index `i` on.
pub open spec fn spec_first_rs(args: Seq<Seq<char>>, i: int) -> Option<Seq<char>>
    decreases args.len() - i,
{
    if i < 0 || i >= args.len() {
        Option::None
    } else if spec_str_ends_with(args[i], ".rs"@) {
        Option::Some(args[i])
    } else {
        spec_first_rs(args, i + 1)
    }
}

/// A path is relative when it does not begin with `/`.
pub open spec fn spec_is_relative(s: Seq<char>) -> bool {
    !(s.len() > 0 && s[0] == '/')
}

/// `suf` is a whole-component suffix of `s`: equal to it, or preceded by
/// a path separator.
pub open spec fn spec_path_ends_with(s: Seq<char>, suf: Seq<char>) -> bool {
    s == suf || (s.len() > suf.len() && spec_str_ends_with(s, suf) && s[s.len() - suf.len() - 1]
        == '/')
}

/// The local-crate check over the first `.rs` argument.
pub open spec fn spec_is_current_compile_crate(args: Seq<Seq<char>>) -> bool {
    match spec_first_rs(args, 0) {
        Option::None => false,
        Option::Some(p) => spec_is_relative(p) || spec_path_ends_with(
            p,
            "lib/rustlib/src/rust/library/std/src/lib.rs"@,
        ) || spec_path_ends_with(p, "lib/rustlib/src/rust/library/core/src/lib.rs"@)
            || spec_path_ends_with(p, "lib/rustlib/src/rust/library/alloc/src/lib.rs"@),
    }
}

/// Does path `s` end with the whole components of `suf`?
fn path_ends_with(s: &str, suf: &str) -> (r: bool)
    ensures
        r == spec_path_ends_with(s@, suf@),
{
    let slen = s.unicode_len();
    let plen = suf.unicode_len();
    if slen == plen {
        return str_eq(s, suf);
    }
    if slen < plen {
        return false;
    }
    str_ends_with(s, suf) && s.get_char(slen - plen - 1) == '/'
}

/// Whether intermediate artifacts should be cleaned.
pub fn rap_clean(arguments: &Arguments) -> (r: bool)
    ensures
        r == arguments.rap_clean,
{
    arguments.rap_clean
}

/// Get the value of `name` from the tool's own argument group.
pub fn get_arg_flag_value(arguments: &Arguments, name: &str) -> (r: Option<String>)
    ensures
        match r {
            Option::Some(v) => spec_flag_value(views_of(arguments.args_group1@), name@, 0)
                == Option::Some(v@),
            Option::None => spec_flag_value(views_of(arguments.args_group1@), name@, 0)
                == Option::<Seq<char>>::None,
        },
{
    arguments.get_arg_flag_value(name)
}

/// `cargo rapx [rapx options] -- [cargo check options]`: the two halves
/// of the argument list around the first `--`.
pub fn rap_and_cargo_args(arguments: &Arguments) -> (r: (&Vec<String>, &Vec<String>))
    ensures
        r.0@ == arguments.args_group1@,
        r.1@ == arguments.args_group2@,
{
    (&arguments.args_group1, &arguments.args_group2)
}

/// If the crate being compiled is local in the rustc phase.
pub fn is_current_compile_crate(arguments: &Arguments) -> (r: bool)
    ensures
        r == spec_is_current_compile_crate(views_of(arguments.args_group1@)),
{
    arguments.is_current_compile_crate()
}

/// Crate types the tool can check: proc-macro crates and build scripts
/// are excluded (checking them can cause linking errors); everything
/// else, including test builds without a `--crate-type`, passes.
pub open spec fn spec_filter_crate_type(g1: Seq<Seq<char>>) -> bool {
    match spec_flag_value(g1, "--crate-type"@, 0) {
        Option::Some(s) => if s == "proc-macro"@ {
            false
        } else if s == "bin"@ && spec_flag_value(g1, "--crate-name"@, 0) == Option::Some(
            "build_script_build"@,
        ) {
            false
        } else {
            true
        },
        Option::None => true,
    }
}

/// Returns true for crate types to be checked; false for special crate
/// types that cannot be handled (proc-macro crates, build scripts).
pub fn filter_crate_type(arguments: &Arguments) -> (r: bool)
    ensures
        r == spec_filter_crate_type(views_of(arguments.args_group1@)),
{
    match arguments.get_arg_flag_value("--crate-type") {
        Option::Some(s) => {
            if str_eq(s.as_str(), "proc-macro") {
                return false;
            }
            if str_eq(s.as_str(), "bin") {
                match arguments.get_arg_flag_value("--crate-name") {
                    Option::Some(n) => !str_eq(n.as_str(), "build_script_build"),
                    Option::None => true,
                }
            } else {
                true
            }
        },
        Option::None => true,
    }
}

/// The raw argument at position `pos`, if any.
pub fn get_arg(arguments: &Arguments, pos: usize) -> (r: Option<String>)
    ensures
        match r {
            Option::Some(v) => pos < arguments.args@.len() && v@ == arguments.args@[pos as int]@,
            Option::None => pos >= arguments.args@.len(),
        },
{
    if pos < arguments.args.len() {
        Option::Some(arguments.args[pos].clone())
    } else {
        Option::None
    }
}

/// All raw arguments from position 2 on (empty when fewer exist).
pub fn skip2(arguments: &Arguments) -> (r: Vec<String>)
    ensures
        views_of(r@) == (if arguments.args@.len() >= 2 {
            views_of(arguments.args@).subrange(2, arguments.args@.len() as int)
        } else {
            Seq::<Seq<char>>::empty()
        }),
{
    let ghost dv = views_of(arguments.args@);
    let mut r: Vec<String> = Vec::new();
    proof {
        assert(views_of(r@) =~= Seq::<Seq<char>>::empty());
    }
    let mut i: usize = 2;
    if arguments.args.len() < 2 {
        return r;
    }
    while i < arguments.args.len()
        invariant
            dv == views_of(arguments.args@),
            dv.len() == arguments.args@.len(),
            2 <= i <= dv.len(),
            views_of(r@) =~= dv.subrange(2, i as int),
        decreases arguments.args.len() - i,
    {
        let ghost before = views_of(r@);
        r.push(arguments.args[i].clone());
        proof {
            assert(views_of(r@) =~= before.push(dv[i as int]));
            assert(dv.subrange(2, i + 1) =~= dv.subrange(2, i as int).push(dv[i as int]));
        }
        i = i + 1;
    }
    r
}

/// The stored executable path.
pub fn current_exe_path(arguments: &Arguments) -> (r: &String)
    ensures
        r@ == arguments.current_exe_path@,
{
    &arguments.current_exe_path
}

/// A decimal digit.
pub open spec fn spec_is_digit(c: char) -> bool {
    '0' <= c <= '9'
}

/// The value of a decimal digit.
pub open spec fn spec_digit_val(c: char) -> u64 {
    (((c as u8) - 48) as u64)
}

/// Largest `acc` such that `acc * 10 + 5` still fits in a `u64`.
pub const U64_MAX_DIV_10: u64 = 1844674407370955161;

/// Parse decimal digits from index `i` with accumulator `acc`; overflow
/// or a non-digit yields nothing.
pub open spec fn spec_parse_digits(s: Seq<char>, i: int, acc: u64) -> Option<u64>
    decreases s.len() - i,
{
    if i < 0 || i >= s.len() {
        Option::Some(acc)
    } else if !spec_is_digit(s[i]) {
        Option::None
    } else if acc > U64_MAX_DIV_10 || (acc == U64_MAX_DIV_10 && spec_digit_val(s[i]) > 5) {
        Option::None
    } else {
        spec_parse_digits(s, i + 1, (acc * 10 + spec_digit_val(s[i])) as u64)
    }
}

/// Parse an unsigned 64-bit decimal: an optional `+`, then at least one
/// digit, with the value in range.
pub open spec fn spec_parse_u64(s: Seq<char>) -> Option<u64> {
    let from: int = if s.len() > 0 && s[0] == '+' {
        1
    } else {
        0
    };
    if s.len() == from {
        Option::None
    } else {
        spec_parse_digits(s, from, 0)
    }
}

/// Parse an unsigned 64-bit decimal number.
pub fn parse_u64(s: &str) -> (r: Option<u64>)
    ensures
        r == spec_parse_u64(s@),
{
    let n = s.unicode_len();
    let mut i: usize = 0;
    if n > 0 && s.get_char(0) == '+' {
        i = 1;
    }
    if i == n {
        return Option::None;
    }
    let ghost start = i as int;
    let mut acc: u64 = 0;
    while i < n
        invariant
            n == s@.len(),
            start == (if s@.len() > 0 && s@[0] == '+' {
                1int
            } else {
                0int
            }),
            start < n,
            start <= i <= n,
            spec_parse_digits(s@, i as int, acc) == spec_parse_digits(s@, start, 0),
        decreases n - i,
    {
        let c = s.get_char(i);
        if c < '0' || c > '9' {
            return Option::None;
        }
        let d: u64 = ((c as u8) - 48) as u64;
        proof {
            assert(d == spec_digit_val(s@[i as int]));
            assert(d <= 9);
        }
        if acc > U64_MAX_DIV_10 || (acc == U64_MAX_DIV_10 && d > 5) {
            return Option::None;
        }
        acc = acc * 10 + d;
        i = i + 1;
    }
    Option::Some(acc)
}

/// The timeout in seconds from the `-timeout` flag, if present and
/// parseable.
pub fn timeout(arguments: &Arguments) -> (r: Option<u64>)
    ensures
        r == (match spec_flag_value(views_of(arguments.args_group1@), "-timeout"@, 0) {
            Option::Some(v) => spec_parse_u64(v),
            Option::None => Option::<u64>::None,
        }),
{
    match arguments.get_arg_flag_value("-timeout") {
        Option::Some(v) => parse_u64(v.as_str()),
        Option::None => Option::None,
    }
}

} // verus!
