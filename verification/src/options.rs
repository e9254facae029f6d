//! The command line and the options of the image file.
use vstd::prelude::*;
use vstd::string::StrSliceExecFns;
use crate::text::{
    begins_with,
    ends_in,
    has_prefix,
    has_suffix,
    same_text,
    skip_chars,
    trim_start,
    trimmed,
};

verus! {

/// How much effort goes into the compression of the image file.
#[derive(Clone, Copy, PartialEq, Eq, Structural, Debug)]
pub enum Compression {
    /// As little as possible.
    Fast,
    /// The usual effort.
    Default,
    /// As much as possible.
    Best,
}

/// The filter that is applied to the image's rows before they are compressed.
#[derive(Clone, Copy, PartialEq, Eq, Structural, Debug)]
pub enum Filter {
    /// No filter.
    NoFilter,
    /// The difference to the pixel before.
    Sub,
    /// The difference to the pixel above.
    Up,
    /// The difference to the average of those two.
    Avg,
    /// The difference to the Paeth predictor.
    Paeth,
}

/// The effort for a compression level: the least for 0, the most for 9, else the usual one.
pub fn map_compression(level: u32) -> (r: Compression)
    ensures
        r == (if level == 0 {
            Compression::Fast
        } else if level == 9 {
            Compression::Best
        } else {
            Compression::Default
        }),
{
    match level {
        0 => Compression::Fast,
        9 => Compression::Best,
        _ => Compression::Default,
    }
}

/// The text in lower case.
pub uninterp spec fn lowercased(text: Seq<char>) -> Seq<char>;

/// `str::to_lowercase`: the text in lower case, a function of the text alone.
#[verifier::external_body]
fn to_lower(text: &str) -> (r: String)
    ensures
        r@ == lowercased(text@),
{
    text.to_lowercase()
}

/// The filter with a name in lower case; no filter for a name that is not known.
pub open spec fn filter_named(name: Seq<char>) -> Filter {
    if name == "sub"@ {
        Filter::Sub
    } else if name == "up"@ {
        Filter::Up
    } else if name == "avg"@ {
        Filter::Avg
    } else if name == "paeth"@ {
        Filter::Paeth
    } else {
        Filter::NoFilter
    }
}

/// The filter with a name in lower case: `"none"` and `"nofilter"` name none, and so does a name
/// that is not known.
pub fn filter_from_name(name: &str) -> (r: Filter)
    ensures
        r == filter_named(name@),
{
    if same_text(name, "sub") {
        Filter::Sub
    } else if same_text(name, "up") {
        Filter::Up
    } else if same_text(name, "avg") {
        Filter::Avg
    } else if same_text(name, "paeth") {
        Filter::Paeth
    } else {
        Filter::NoFilter
    }
}

/// The filter that a text names, in whatever case.
pub fn parse_filter_type(s: &str) -> (r: Filter)
    ensures
        r == filter_named(lowercased(s@)),
{
    let name: String = to_lower(s);
    filter_from_name(name.as_str())
}

/// The texts of a list of arguments.
pub open spec fn texts(args: Seq<String>) -> Seq<Seq<char>> {
    Seq::new(args.len(), |i: int| args[i]@)
}

/// Whether an argument announces that the next one is the path.
pub open spec fn announces_path(a: Seq<char>) -> bool {
    a == "--"@ || a == "-c"@ || a == "--config"@
}

/// The path that an argument gives by itself, if it gives one: what follows `--config=`, a
/// name ending in `.json` behind dashes, or an argument that does not begin with a dash.
pub open spec fn path_in(a: Seq<char>) -> Option<Seq<char>> {
    if has_prefix(a, "--config="@) {
        let v = a.subrange("--config="@.len() as int, a.len() as int);
        if v.len() > 0 {
            Some(v)
        } else {
            None
        }
    } else if has_prefix(a, "-"@) {
        if has_suffix(a, ".json"@) {
            Some(trimmed(a, '-'))
        } else {
            None
        }
    } else {
        Some(a)
    }
}

/// The path that the arguments from the `i`-th on give, where `path` is the one so far: a later
/// one takes precedence.
pub open spec fn path_from(args: Seq<Seq<char>>, i: int, path: Seq<char>) -> Seq<char>
    decreases args.len() - i,
{
    if i >= args.len() {
        path
    } else if announces_path(args[i]) {
        if i + 1 < args.len() {
            path_from(args, i + 2, args[i + 1])
        } else {
            path
        }
    } else {
        match path_in(args[i]) {
            Some(p) => path_from(args, i + 1, p),
            None => path_from(args, i + 1, path),
        }
    }
}

/// The path that an argument gives by itself, if it gives one.
fn own_path(a: &str) -> (r: Option<&str>)
    ensures
        match r {
            Some(p) => path_in(a@) == Some(p@),
            None => path_in(a@) is None,
        },
{
    if begins_with(a, "--config=") {
        let v: &str = skip_chars(a, "--config=".unicode_len());
        if v.unicode_len() > 0 {
            Some(v)
        } else {
            None
        }
    } else if begins_with(a, "-") {
        if ends_in(a, ".json") {
            Some(trim_start(a, '-'))
        } else {
            None
        }
    } else {
        Some(a)
    }
}

/// The path of the configuration file that the command line gives, `config.json` where it gives
/// none. The forms are `FILE`, `-c FILE`, `--config FILE`, `--config=FILE`, `--FILE` for a name
/// ending in `.json`, and `-- FILE`; the last one takes precedence, and other flags are ignored.
pub fn config_path_from_args(args: &Vec<String>) -> (r: String)
    ensures
        r@ == path_from(texts(args@), 0, "config.json"@),
{
    let n: usize = args.len();
    let mut path: &str = "config.json";
    let mut i: usize = 0;
    while i < n
        invariant
            i <= n,
            n == args@.len(),
            path_from(texts(args@), 0, "config.json"@) == path_from(texts(args@), i as int, path@),
        decreases n - i,
    {
        let a: &str = args[i].as_str();
        if same_text(a, "--") || same_text(a, "-c") || same_text(a, "--config") {
            if i + 1 < n {
                path = args[i + 1].as_str();
                i = i + 2;
            } else {
                i = i + 1;
            }
        } else {
            match own_path(a) {
                Some(p) => {
                    path = p;
                },
                None => {},
            }
            i = i + 1;
        }
    }
    path.to_owned()
}

/// A file name that stands last on the command line is the path, whatever comes before it.
pub proof fn last_file_name_is_the_path(
    args: Seq<Seq<char>>,
    file: Seq<char>,
    i: int,
    path: Seq<char>,
)
    requires
        !has_prefix(file, "-"@),
        0 <= i <= args.len(),
    ensures
        path_from(args.push(file), i, path) == file,
    decreases args.len() - i,
{
    let all = args.push(file);
    reveal_strlit("-");
    reveal_strlit("--");
    reveal_strlit("-c");
    reveal_strlit("--config");
    reveal_strlit("--config=");
    if i == args.len() {
        assert(file.len() > 0 ==> file.subrange(0, 1)[0] == file[0]);
        if file.len() > 0 && file[0] == '-' {
            assert(file.subrange(0, 1) =~= "-"@);
        }
        assert(!announces_path(file));
        if has_prefix(file, "--config="@) {
            assert(file.subrange(0, 9)[0] == "--config="@[0]);
        }
        assert(path_in(file) == Some(file));
        assert(path_from(all, i + 1, file) == file);
    } else if announces_path(all[i]) {
        if i + 1 < args.len() {
            last_file_name_is_the_path(args, file, i + 2, all[i + 1]);
        } else {
            assert(path_from(all, i + 2, file) == file);
        }
    } else {
        match path_in(all[i]) {
            Some(p) => {
                last_file_name_is_the_path(args, file, i + 1, p);
            },
            None => {
                last_file_name_is_the_path(args, file, i + 1, path);
            },
        }
    }
}

/// Flags that give no path leave the default.
pub proof fn flags_alone_leave_the_default(args: Seq<Seq<char>>, i: int, path: Seq<char>)
    requires
        0 <= i <= args.len(),
        forall|k: int|
            0 <= k < args.len() ==> !announces_path(#[trigger] args[k]) && path_in(args[k]) is None,
    ensures
        path_from(args, i, path) == path,
    decreases args.len() - i,
{
    if i < args.len() {
        assert(!announces_path(args[i]));
        flags_alone_leave_the_default(args, i + 1, path);
    }
}

/// Level 0 takes the least effort, level 9 the most, and every other level the usual one.
pub proof fn only_the_outermost_levels_are_special(level: u32, r: Compression)
    requires
        call_ensures(map_compression, (level,), r),
    ensures
        r == Compression::Fast <==> level == 0,
        r == Compression::Best <==> level == 9,
        r == Compression::Default <==> level != 0 && level != 9,
{
}

/// A filter is taken exactly for its own name; no filter is taken for any other name.
pub proof fn filters_go_by_their_names(name: &str, r: Filter)
    requires
        call_ensures(filter_from_name, (name,), r),
    ensures
        r == Filter::Sub <==> name@ == seq!['s', 'u', 'b'],
        r == Filter::Up <==> name@ == seq!['u', 'p'],
        r == Filter::Avg <==> name@ == seq!['a', 'v', 'g'],
        r == Filter::Paeth <==> name@ == seq!['p', 'a', 'e', 't', 'h'],
{
    reveal_strlit("sub");
    reveal_strlit("up");
    reveal_strlit("avg");
    reveal_strlit("paeth");
    assert("sub"@ =~= seq!['s', 'u', 'b']);
    assert("up"@ =~= seq!['u', 'p']);
    assert("avg"@ =~= seq!['a', 'v', 'g']);
    assert("paeth"@ =~= seq!['p', 'a', 'e', 't', 'h']);
    assert("sub"@.len() == 3 && "up"@.len() == 2 && "avg"@.len() == 3 && "paeth"@.len() == 5);
    assert("sub"@[0] != "avg"@[0]);
}

/// Whether none of the arguments announces a path.
pub open spec fn none_announces(args: Seq<Seq<char>>) -> bool {
    forall|k: int|
        0 <= k < args.len() ==> (#[trigger] args[k]) != "--"@ && args[k] != "-c"@ && args[k]
            != "--config"@
}

/// What a last argument makes of the path, where no argument announces one.
proof fn lemma_last_argument(args: Seq<Seq<char>>, a: Seq<char>, i: int, path: Seq<char>)
    requires
        none_announces(args),
        !announces_path(a),
        0 <= i <= args.len(),
    ensures
        path_from(args.push(a), i, path) == match path_in(a) {
            Some(p) => p,
            None => path_from(args, i, path),
        },
    decreases args.len() - i,
{
    let all = args.push(a);
    if i == args.len() {
        let p = match path_in(a) {
            Some(p) => p,
            None => path,
        };
        assert(path_from(all, i + 1, p) == p);
    } else {
        assert(all[i] == args[i]);
        assert(args[i] != "--"@);
        match path_in(args[i]) {
            Some(p) => {
                lemma_last_argument(args, a, i + 1, p);
            },
            None => {
                lemma_last_argument(args, a, i + 1, path);
            },
        }
    }
}

/// What stands behind `-c`, `--config` or `--` at the end of the command line is the path,
/// whatever it is.
pub proof fn announced_path_is_taken(
    args: Seq<Seq<char>>,
    flag: Seq<char>,
    file: Seq<char>,
    i: int,
    path: Seq<char>,
)
    requires
        none_announces(args),
        flag == "-c"@ || flag == "--config"@ || flag == "--"@,
        0 <= i <= args.len(),
    ensures
        path_from(args.push(flag).push(file), i, path) == file,
    decreases args.len() - i,
{
    let all = args.push(flag).push(file);
    if i == args.len() {
        assert(all[i] == flag && all[i + 1] == file);
        assert(path_from(all, i + 2, file) == file);
    } else {
        assert(all[i] == args[i]);
        assert(args[i] != "--"@);
        match path_in(args[i]) {
            Some(p) => {
                announced_path_is_taken(args, flag, file, i + 1, p);
            },
            None => {
                announced_path_is_taken(args, flag, file, i + 1, path);
            },
        }
    }
}

/// What follows `--config=` in the last argument is the path.
pub proof fn attached_path_is_taken(
    args: Seq<Seq<char>>,
    file: Seq<char>,
    i: int,
    path: Seq<char>,
)
    requires
        none_announces(args),
        file.len() > 0,
        0 <= i <= args.len(),
    ensures
        path_from(args.push("--config="@ + file), i, path) == file,
{
    reveal_strlit("--");
    reveal_strlit("-c");
    reveal_strlit("--config");
    reveal_strlit("--config=");
    let a = "--config="@ + file;
    assert(a.subrange(0, 9) =~= "--config="@);
    assert(a.subrange(9, a.len() as int) =~= file);
    assert(a.len() >= 10);
    lemma_last_argument(args, a, i, path);
}

/// A name ending in `.json` behind dashes in the last argument is the path.
pub proof fn dashed_name_is_taken(
    args: Seq<Seq<char>>,
    a: Seq<char>,
    name: Seq<char>,
    i: int,
    path: Seq<char>,
)
    requires
        none_announces(args),
        0 <= i <= args.len(),
        name.len() > 0,
        name[0] != '-',
        has_suffix(a, ".json"@),
        !has_prefix(a, "--config="@),
        name.len() < a.len(),
        a.subrange(a.len() - name.len(), a.len() as int) == name,
        forall|k: int| 0 <= k < a.len() - name.len() ==> #[trigger] a[k] == '-',
    ensures
        path_from(args.push(a), i, path) == name,
{
    reveal_strlit("-");
    reveal_strlit("--");
    reveal_strlit("-c");
    reveal_strlit("--config");
    reveal_strlit(".json");
    assert(a[0] == '-');
    assert(a.subrange(0, 1) =~= "-"@);
    assert(!announces_path(a)) by {
        assert(a.subrange(a.len() - 5, a.len() as int)[4] == 'n');
        assert(a[a.len() - 1] == 'n');
    }
    crate::text::trimming_takes_only_the_character(a, '-');
    let t = trimmed(a, '-');
    if t.len() < name.len() {
        assert(a[a.len() - name.len()] == '-');
        assert(a.subrange(a.len() - name.len(), a.len() as int)[0] == '-');
    }
    if t.len() > name.len() {
        assert(a[a.len() - t.len()] == '-');
        assert(a.subrange(a.len() - t.len(), a.len() as int)[0] == '-');
    }
    lemma_last_argument(args, a, i, path);
}

/// A flag that gives no path is ignored.
pub proof fn other_flags_are_ignored(
    args: Seq<Seq<char>>,
    a: Seq<char>,
    i: int,
    path: Seq<char>,
)
    requires
        none_announces(args.push(a)),
        0 <= i <= args.len(),
        a.len() > 0,
        a[0] == '-',
        !has_suffix(a, ".json"@),
        !has_prefix(a, "--config="@),
    ensures
        path_from(args.push(a), i, path) == path_from(args, i, path),
{
    reveal_strlit("-");
    assert(a.subrange(0, 1) =~= "-"@);
    assert(args.push(a)[args.len() as int] == a);
    assert forall|k: int| 0 <= k < args.len() implies (#[trigger] args[k]) != "--"@ && args[k]
        != "-c"@ && args[k] != "--config"@ by {
        assert(args.push(a)[k] == args[k]);
    }
    lemma_last_argument(args, a, i, path);
}

/// The path of the configuration file is the one that the arguments give, from `config.json` on.
pub proof fn path_starts_from_the_default(args: Vec<String>, r: String)
    requires
        call_ensures(config_path_from_args, (&args,), r),
    ensures
        args@.len() == 0 ==> r@ == "config.json"@,
        r@ == path_from(Seq::new(args@.len(), |i: int| args@[i]@), 0, "config.json"@),
{
    assert(texts(args@) =~= Seq::new(args@.len(), |i: int| args@[i]@));
}

}
