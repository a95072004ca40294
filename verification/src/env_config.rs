//! Command-line flags and their environment variables: the flag table, the flag parser, and
//! which variables to set.
use vstd::prelude::*;

use crate::config::{opt_view, views};
use crate::text::{
    chars_eq, chars_of, find_char, find_char_exec, from_str, lemma_utf8_len, starts_with,
    starts_with_spec, string_of, utf8_len, utf8_length,
};

verus! {

/// A flag: the environment variable it sets, its long names, its short name and its default.
pub struct FlagEntry {
    pub env: String,
    pub aliases: Vec<String>,
    pub short: Option<String>,
    pub default_val: Option<String>,
}

pub type FlagView = (Seq<char>, Seq<Seq<char>>, Option<Seq<char>>, Option<Seq<char>>);

impl View for FlagEntry {
    type V = FlagView;

    open spec fn view(&self) -> FlagView {
        (self.env@, views(self.aliases@), opt_view(self.short), opt_view(self.default_val))
    }
}

/// The flags the application understands.
pub open spec fn builtin_flags_spec() -> Seq<FlagView> {
    seq![
        (
            "SUPABASE_URL"@,
            seq!["supabase-url"@],
            Some("s"@),
            Some("https://gtbeuxcolbpuipvqiibn.supabase.co"@),
        ),
        ("SUPABASE_ANON_KEY"@, seq!["supabase-anon-key"@], None, None),
        ("OPENWEATHER_API_KEY"@, seq!["openweather-api-key"@, "owm-key"@], Some("w"@), None),
        (
            "OPEN_METEO_BASE_URL"@,
            seq!["open-meteo-base-url"@],
            None,
            Some("https://api.open-meteo.com"@),
        ),
        ("OPEN_METEO_API_KEY"@, seq!["open-meteo-api-key"@], None, None),
        ("FINNHUB_API_KEY"@, seq!["finnhub-api-key"@], Some("f"@), None),
        ("NEWSAPI_KEY"@, seq!["newsapi-key"@, "news-api-key"@], Some("n"@), None),
        ("GIT_REPO_PATH"@, seq!["git-repo"@, "git-repo-path"@], None, None),
        ("CONFIG_DIR"@, seq!["config-dir"@], None, None),
    ]
}

fn names(first: &str, second: Option<&str>) -> (r: Vec<String>)
    ensures
        views(r@) == match second {
            Some(b) => seq![first@, b@],
            None => seq![first@],
        },
{
    let mut v: Vec<String> = Vec::new();
    let a = from_str(first);
    v.push(a);
    match second {
        Some(b) => {
            let b = from_str(b);
            v.push(b);
            assert(views(v@) =~= seq![a@, b@]);
        },
        None => {
            assert(views(v@) =~= seq![a@]);
        },
    }
    v
}

fn flag(env: &str, aliases: Vec<String>, short: Option<&str>, default_val: Option<&str>) -> (r:
    FlagEntry)
    ensures
        r@ == (
            env@,
            views(aliases@),
            match short {
                Some(s) => Some(s@),
                None => None,
            },
            match default_val {
                Some(d) => Some(d@),
                None => None,
            },
        ),
{
    FlagEntry {
        env: from_str(env),
        aliases,
        short: match short {
            Some(s) => Some(from_str(s)),
            None => None,
        },
        default_val: match default_val {
            Some(d) => Some(from_str(d)),
            None => None,
        },
    }
}

/// The flag table.
pub fn builtin_flags() -> (r: Vec<FlagEntry>)
    ensures
        views(r@) == builtin_flags_spec(),
{
    let mut r: Vec<FlagEntry> = Vec::new();
    r.push(
        flag(
            "SUPABASE_URL",
            names("supabase-url", None),
            Some("s"),
            Some("https://gtbeuxcolbpuipvqiibn.supabase.co"),
        ),
    );
    r.push(flag("SUPABASE_ANON_KEY", names("supabase-anon-key", None), None, None));
    r.push(
        flag("OPENWEATHER_API_KEY", names("openweather-api-key", Some("owm-key")), Some("w"), None),
    );
    r.push(
        flag(
            "OPEN_METEO_BASE_URL",
            names("open-meteo-base-url", None),
            None,
            Some("https://api.open-meteo.com"),
        ),
    );
    r.push(flag("OPEN_METEO_API_KEY", names("open-meteo-api-key", None), None, None));
    r.push(flag("FINNHUB_API_KEY", names("finnhub-api-key", None), Some("f"), None));
    r.push(flag("NEWSAPI_KEY", names("newsapi-key", Some("news-api-key")), Some("n"), None));
    r.push(flag("GIT_REPO_PATH", names("git-repo", Some("git-repo-path")), None, None));
    r.push(flag("CONFIG_DIR", names("config-dir", None), None, None));
    assert(views(r@) =~= builtin_flags_spec());
    r
}


// ---------------------------------------------------------------------------
// Parsed flags
// ---------------------------------------------------------------------------

/// The value that the last entry for `k` holds, if any.
pub open spec fn last_value(s: Seq<(Seq<char>, Seq<char>)>, k: Seq<char>) -> Option<Seq<char>>
    decreases s.len(),
{
    if s.len() == 0 {
        None
    } else if s.last().0 == k {
        Some(s.last().1)
    } else {
        last_value(s.drop_last(), k)
    }
}

/// The map that a list of (name, value) entries gives, later entries replacing earlier ones.
pub open spec fn entries_map(s: Seq<(Seq<char>, Seq<char>)>) -> Map<Seq<char>, Seq<char>> {
    Map::new(|k: Seq<char>| last_value(s, k) is Some, |k: Seq<char>| last_value(s, k)->0)
}

/// Flag name (without dashes) to value.
pub struct ParsedFlags {
    entries: Vec<(String, String)>,
}

pub open spec fn string_pairs(v: Seq<(String, String)>) -> Seq<(Seq<char>, Seq<char>)> {
    v.map_values(|p: (String, String)| (p.0@, p.1@))
}

impl View for ParsedFlags {
    type V = Map<Seq<char>, Seq<char>>;

    closed spec fn view(&self) -> Map<Seq<char>, Seq<char>> {
        entries_map(string_pairs(self.entries@))
    }
}

impl ParsedFlags {
    pub fn new() -> (r: Self)
        ensures
            r@ == Map::<Seq<char>, Seq<char>>::empty(),
    {
        let r = ParsedFlags { entries: Vec::new() };
        assert(r@ =~= Map::<Seq<char>, Seq<char>>::empty());
        r
    }

    /// Sets `name` to `value`, replacing any earlier value.
    pub fn insert(&mut self, name: String, value: String)
        ensures
            final(self)@ == old(self)@.insert(name@, value@),
    {
        let ghost before = string_pairs(self.entries@);
        let ghost k = name@;
        let ghost v = value@;
        self.entries.push((name, value));
        proof {
            let after = string_pairs(self.entries@);
            assert(after =~= before.push((k, v)));
            assert(after.drop_last() =~= before);
        }
        assert(self@ =~= old(self)@.insert(k, v));
    }

    /// The value of `name`, if it was given.
    pub fn get(&self, name: &str) -> (r: Option<String>)
        ensures
            match r {
                Some(v) => self@.dom().contains(name@) && self@[name@] == v@,
                None => !self@.dom().contains(name@),
            },
    {
        let key = chars_of(name);
        let ghost s = string_pairs(self.entries@);
        let mut i: usize = self.entries.len();
        assert(s.take(i as int) =~= s);
        while i > 0
            invariant
                i <= self.entries.len(),
                s == string_pairs(self.entries@),
                key@ == name@,
                last_value(s, name@) == last_value(s.take(i as int), name@),
            decreases i,
        {
            let k = chars_of(self.entries[i - 1].0.as_str());
            assert(s.take(i as int).drop_last() =~= s.take(i - 1));
            if chars_eq(&k, &key) {
                return Some(self.entries[i - 1].1.clone());
            }
            i = i - 1;
        }
        None
    }
}

// ---------------------------------------------------------------------------
// Parsing flags
// ---------------------------------------------------------------------------

/// Whether the argument after `args[i]` is its value: it exists and does not start with `-`.
pub open spec fn takes_value(args: Seq<Seq<char>>, i: int) -> bool {
    i + 1 < args.len() && !starts_with_spec(args[i + 1], "-"@)
}

/// What the argument at `i` gives: a (name, value) entry or nothing, and where the next
/// argument starts. `--name=value`; `--name value` when a value follows, else `--name` as
/// `true`; the same for a two-byte `-x`; anything else is skipped.
pub open spec fn flag_step(args: Seq<Seq<char>>, i: int) -> (Option<(Seq<char>, Seq<char>)>, int) {
    let arg = args[i];
    if starts_with_spec(arg, "--"@) {
        let rest = arg.skip(2);
        match find_char(rest, '=') {
            Some(eq) => (Some((rest.take(eq), rest.skip(eq + 1))), i + 1),
            None => if takes_value(args, i) {
                (Some((rest, args[i + 1])), i + 2)
            } else {
                (Some((rest, "true"@)), i + 1)
            },
        }
    } else if starts_with_spec(arg, "-"@) && utf8_len(arg) == 2 {
        let short = arg.subrange(1, 2);
        if takes_value(args, i) {
            (Some((short, args[i + 1])), i + 2)
        } else {
            (Some((short, "true"@)), i + 1)
        }
    } else {
        (None, i + 1)
    }
}

/// The entries that the arguments from position `i` on give, in order.
pub open spec fn flag_entries_from(args: Seq<Seq<char>>, i: int) -> Seq<(Seq<char>, Seq<char>)>
    decreases args.len() - i,
{
    if i < 0 || i >= args.len() {
        Seq::empty()
    } else {
        let (e, j) = flag_step(args, i);
        let rest = if j > i {
            flag_entries_from(args, j)
        } else {
            Seq::empty()
        };
        match e {
            Some(kv) => seq![kv] + rest,
            None => rest,
        }
    }
}

/// The flags that `args` give, later occurrences replacing earlier ones.
pub open spec fn parse_flags_spec(args: Seq<Seq<char>>) -> Map<Seq<char>, Seq<char>> {
    entries_map(flag_entries_from(args, 0))
}

pub open spec fn string_views(v: Seq<String>) -> Seq<Seq<char>> {
    v.map_values(|s: String| s@)
}

fn skip_chars(v: &Vec<char>, from: usize) -> (r: Vec<char>)
    requires
        from <= v.len(),
    ensures
        r@ == v@.skip(from as int),
{
    let mut out: Vec<char> = Vec::new();
    let mut i: usize = from;
    while i < v.len()
        invariant
            from <= i <= v.len(),
            out@ == v@.subrange(from as int, i as int),
        decreases v.len() - i,
    {
        out.push(v[i]);
        i = i + 1;
        assert(out@ =~= v@.subrange(from as int, i as int));
    }
    out
}

fn take_chars(v: &Vec<char>, n: usize) -> (r: Vec<char>)
    requires
        n <= v.len(),
    ensures
        r@ == v@.take(n as int),
{
    let mut out: Vec<char> = Vec::new();
    let mut i: usize = 0;
    while i < n
        invariant
            i <= n <= v.len(),
            out@ == v@.take(i as int),
        decreases n - i,
    {
        out.push(v[i]);
        i = i + 1;
        assert(out@ =~= v@.take(i as int));
    }
    out
}

/// The entry that the argument at `i` gives and where the next argument starts.
fn flag_step_exec(args: &[String], i: usize) -> (r: (Option<(String, String)>, usize))
    requires
        i < args.len(),
    ensures
        r.1 > i,
        r.1 <= args.len(),
        (match r.0 {
            Some(kv) => Some((kv.0@, kv.1@)),
            None => None,
        }, r.1 as int) == flag_step(string_views(args@), i as int),
{
    let ghost sargs = string_views(args@);
    let arg = chars_of(args[i].as_str());
    assert(sargs[i as int] == arg@);
    let takes = i + 1 < args.len() && !starts_with(&chars_of(args[i + 1].as_str()), "-");
    assert(takes == takes_value(sargs, i as int));
    if starts_with(&arg, "--") {
        proof {
            reveal_strlit("--");
        }
        let rest = skip_chars(&arg, 2);
        match find_char_exec(&rest, '=') {
            Some(eq) => {
                let name = take_chars(&rest, eq);
                let value = skip_chars(&rest, eq + 1);
                (Some((string_of(&name), string_of(&value))), i + 1)
            },
            None => {
                if takes {
                    (Some((string_of(&rest), args[i + 1].clone())), i + 2)
                } else {
                    (Some((string_of(&rest), from_str("true"))), i + 1)
                }
            },
        }
    } else if starts_with(&arg, "-") && utf8_length(&arg) == 2 {
        proof {
            reveal_strlit("-");
            lemma_utf8_len(arg@);
            lemma_utf8_len(arg@.drop_first());
            assert(arg@.take(1)[0] == arg@[0]);
            assert("-"@[0] == '-');
            assert(arg@[0] == '-');
            assert(arg@.len() == 2);
        }
        let mut short: Vec<char> = Vec::new();
        short.push(arg[1]);
        assert(short@ =~= arg@.subrange(1, 2));
        if takes {
            (Some((string_of(&short), args[i + 1].clone())), i + 2)
        } else {
            (Some((string_of(&short), from_str("true"))), i + 1)
        }
    } else {
        (None, i + 1)
    }
}

/// Parses command-line arguments into flag names (without dashes) and values.
pub fn parse_flags(args: &[String]) -> (r: ParsedFlags)
    ensures
        r@ == parse_flags_spec(string_views(args@)),
{
    let ghost sargs = string_views(args@);
    let mut map = ParsedFlags::new();
    let ghost mut done: Seq<(Seq<char>, Seq<char>)> = Seq::empty();
    let mut i: usize = 0;
    proof {
        assert(entries_map(done) =~= Map::<Seq<char>, Seq<char>>::empty());
        assert(done + flag_entries_from(sargs, 0) =~= flag_entries_from(sargs, 0));
    }
    while i < args.len()
        invariant
            i <= args.len(),
            sargs == string_views(args@),
            map@ == entries_map(done),
            done + flag_entries_from(sargs, i as int) == flag_entries_from(sargs, 0),
        decreases args.len() - i,
    {
        let (entry, next) = flag_step_exec(args, i);
        match entry {
            Some((name, value)) => {
                let ghost kv = (name@, value@);
                proof {
                    assert(flag_entries_from(sargs, i as int) == seq![kv] + flag_entries_from(
                        sargs,
                        next as int,
                    ));
                    assert(done + flag_entries_from(sargs, i as int) =~= done.push(kv)
                        + flag_entries_from(sargs, next as int));
                    assert(done.push(kv).drop_last() =~= done);
                    assert(entries_map(done.push(kv)) =~= entries_map(done).insert(kv.0, kv.1));
                    done = done.push(kv);
                }
                map.insert(name, value);
            },
            None => {
                assert(flag_entries_from(sargs, i as int) == flag_entries_from(sargs, next as int));
            },
        }
        i = next;
    }
    assert(flag_entries_from(sargs, i as int) =~= Seq::<(Seq<char>, Seq<char>)>::empty());
    assert(done + Seq::<(Seq<char>, Seq<char>)>::empty() =~= done);
    map
}

/// The value a flag was given: its first long name that was given, else its short name.
pub open spec fn resolve_spec(
    m: Map<Seq<char>, Seq<char>>,
    aliases: Seq<Seq<char>>,
    short: Option<Seq<char>>,
) -> Option<Seq<char>>
    decreases aliases.len(),
{
    if aliases.len() > 0 {
        if m.dom().contains(aliases[0]) {
            Some(m[aliases[0]])
        } else {
            resolve_spec(m, aliases.drop_first(), short)
        }
    } else {
        match short {
            Some(s) => if m.dom().contains(s) {
                Some(m[s])
            } else {
                None
            },
            None => None,
        }
    }
}

/// The value given for a flag, if any.
pub fn resolve_flag(parsed: &ParsedFlags, entry: &FlagEntry) -> (r: Option<String>)
    ensures
        opt_view(r) == resolve_spec(parsed@, entry@.1, entry@.2),
{
    let ghost names = views(entry.aliases@);
    let mut i: usize = 0;
    assert(names.skip(0) =~= names);
    while i < entry.aliases.len()
        invariant
            i <= entry.aliases.len(),
            names == views(entry.aliases@),
            resolve_spec(parsed@, names, entry@.2) == resolve_spec(
                parsed@,
                names.skip(i as int),
                entry@.2,
            ),
        decreases entry.aliases.len() - i,
    {
        assert(names.skip(i as int)[0] == entry.aliases@[i as int]@);
        match parsed.get(entry.aliases[i].as_str()) {
            Some(v) => {
                return Some(v);
            },
            None => {},
        }
        assert(names.skip(i as int).drop_first() =~= names.skip(i + 1));
        i = i + 1;
    }
    assert(names.skip(i as int) =~= Seq::<Seq<char>>::empty());
    match &entry.short {
        Some(s) => parsed.get(s.as_str()),
        None => None,
    }
}

/// The value of the first entry named `k` (`.env` files are read first to last, and a
/// variable that is already set is never overwritten, so the first entry wins).
pub open spec fn first_value(s: Seq<(Seq<char>, Seq<char>)>, k: Seq<char>) -> Option<Seq<char>>
    decreases s.len(),
{
    if s.len() == 0 {
        None
    } else {
        match first_value(s.drop_last(), k) {
            Some(v) => Some(v),
            None => if s.last().0 == k {
                Some(s.last().1)
            } else {
                None
            },
        }
    }
}

/// The assignments that `.env` makes: each entry whose variable is not set in the
/// environment (`present`) and not named by an earlier entry.
pub open spec fn dotenv_spec(dotenv: Seq<(Seq<char>, Seq<char>)>, present: Seq<Seq<char>>) -> Seq<
    (Seq<char>, Seq<char>),
>
    decreases dotenv.len(),
{
    if dotenv.len() == 0 {
        Seq::empty()
    } else {
        let r = dotenv_spec(dotenv.drop_last(), present);
        let e = dotenv.last();
        if !present.contains(e.0) && first_value(dotenv.drop_last(), e.0) is None {
            r.push(e)
        } else {
            r
        }
    }
}

/// Each flag's default, where its variable is set neither in the environment nor in `.env`.
pub open spec fn defaults_spec(
    flags: Seq<FlagView>,
    present: Seq<Seq<char>>,
    dotenv: Seq<(Seq<char>, Seq<char>)>,
) -> Seq<(Seq<char>, Seq<char>)>
    decreases flags.len(),
{
    if flags.len() == 0 {
        Seq::empty()
    } else {
        let r = defaults_spec(flags.drop_last(), present, dotenv);
        let f = flags.last();
        if !present.contains(f.0) && first_value(dotenv, f.0) is None && f.3 is Some {
            r.push((f.0, f.3->0))
        } else {
            r
        }
    }
}

pub open spec fn overrides_spec(flags: Seq<FlagView>, parsed: Map<Seq<char>, Seq<char>>) -> Seq<
    (Seq<char>, Seq<char>),
>
    decreases flags.len(),
{
    if flags.len() == 0 {
        Seq::empty()
    } else {
        let r = overrides_spec(flags.drop_last(), parsed);
        let f = flags.last();
        match resolve_spec(parsed, f.1, f.2) {
            Some(v) => r.push((f.0, v)),
            None => r,
        }
    }
}

/// The environment assignments that start-up makes, in order: the `.env` entries for unset
/// variables, then each flag's default where its variable is still unset, then each flag
/// given on the command line. `present` names the variables the environment already sets.
pub open spec fn env_assignments_spec(
    flags: Seq<FlagView>,
    present: Seq<Seq<char>>,
    dotenv: Seq<(Seq<char>, Seq<char>)>,
    parsed: Map<Seq<char>, Seq<char>>,
) -> Seq<(Seq<char>, Seq<char>)> {
    dotenv_spec(dotenv, present) + defaults_spec(flags, present, dotenv) + overrides_spec(
        flags,
        parsed,
    )
}

fn names_contain(names: &Vec<String>, name: &String) -> (r: bool)
    ensures
        r == string_views(names@).contains(name@),
{
    let ghost ns = string_views(names@);
    let target = chars_of(name.as_str());
    let mut i: usize = 0;
    while i < names.len()
        invariant
            i <= names.len(),
            ns == string_views(names@),
            target@ == name@,
            forall|j: int| 0 <= j < i ==> ns[j] != name@,
        decreases names.len() - i,
    {
        if chars_eq(&chars_of(names[i].as_str()), &target) {
            assert(ns[i as int] == name@);
            return true;
        }
        i = i + 1;
    }
    false
}

fn first_value_exec(pairs: &Vec<(String, String)>, upto: usize, k: &String) -> (r: Option<String>)
    requires
        upto <= pairs.len(),
    ensures
        opt_view(r) == first_value(string_pairs(pairs@).take(upto as int), k@),
{
    let ghost ps = string_pairs(pairs@);
    let target = chars_of(k.as_str());
    let mut i: usize = 0;
    while i < upto
        invariant
            i <= upto <= pairs.len(),
            ps == string_pairs(pairs@),
            target@ == k@,
            first_value(ps.take(i as int), k@) is None,
        decreases upto - i,
    {
        proof {
            assert(ps.take(i + 1).drop_last() =~= ps.take(i as int));
        }
        if chars_eq(&chars_of(pairs[i].0.as_str()), &target) {
            proof {
                lemma_first_value_prefix(ps.take(upto as int), i + 1, k@);
                assert(ps.take(upto as int).take(i + 1) =~= ps.take(i + 1));
            }
            return Some(pairs[i].1.clone());
        }
        i = i + 1;
    }
    None
}

proof fn lemma_first_value_prefix(s: Seq<(Seq<char>, Seq<char>)>, n: int, k: Seq<char>)
    requires
        0 <= n <= s.len(),
        first_value(s.take(n), k) is Some,
    ensures
        first_value(s, k) == first_value(s.take(n), k),
    decreases s.len() - n,
{
    if n < s.len() {
        assert(s.take(n + 1).drop_last() =~= s.take(n));
        lemma_first_value_prefix(s, n + 1, k);
    } else {
        assert(s.take(n) =~= s);
    }
}

/// The (variable, value) assignments that start-up makes, given the names the environment
/// already sets, the entries of `.env` in file order, and the parsed command line.
pub fn env_assignments(
    flags: &Vec<FlagEntry>,
    present: &Vec<String>,
    dotenv: &Vec<(String, String)>,
    parsed: &ParsedFlags,
) -> (r: Vec<(String, String)>)
    ensures
        string_pairs(r@) == env_assignments_spec(
            views(flags@),
            string_views(present@),
            string_pairs(dotenv@),
            parsed@,
        ),
{
    let ghost fs = views(flags@);
    let ghost pr = string_views(present@);
    let ghost ds = string_pairs(dotenv@);
    let mut out: Vec<(String, String)> = Vec::new();
    let mut k: usize = 0;
    while k < dotenv.len()
        invariant
            k <= dotenv.len(),
            pr == string_views(present@),
            ds == string_pairs(dotenv@),
            string_pairs(out@) == dotenv_spec(ds.take(k as int), pr),
        decreases dotenv.len() - k,
    {
        let e = &dotenv[k];
        proof {
            assert(ds.take(k + 1).drop_last() =~= ds.take(k as int));
            assert(ds.take(k + 1).last() == (e.0@, e.1@));
        }
        if !names_contain(present, &e.0) && first_value_exec(dotenv, k, &e.0).is_none() {
            let ghost prev = out@;
            out.push((e.0.clone(), e.1.clone()));
            assert(string_pairs(out@) =~= string_pairs(prev).push((e.0@, e.1@)));
        }
        k = k + 1;
    }
    assert(ds.take(dotenv.len() as int) =~= ds);
    let ghost layer = string_pairs(out@);
    let mut i: usize = 0;
    while i < flags.len()
        invariant
            i <= flags.len(),
            fs == views(flags@),
            pr == string_views(present@),
            ds == string_pairs(dotenv@),
            layer == dotenv_spec(ds, pr),
            string_pairs(out@) == layer + defaults_spec(fs.take(i as int), pr, ds),
        decreases flags.len() - i,
    {
        let f = &flags[i];
        proof {
            assert(fs.take(i + 1).drop_last() =~= fs.take(i as int));
            assert(fs.take(i + 1).last() == f@);
        }
        if !names_contain(present, &f.env) && first_value_exec(dotenv, dotenv.len(), &f.env).is_none() {
            match &f.default_val {
                Some(d) => {
                    let ghost prev = out@;
                    out.push((f.env.clone(), d.clone()));
                    assert(string_pairs(out@) =~= string_pairs(prev).push((f@.0, f@.3->0)));
                },
                None => {},
            }
        }
        proof {
            assert(ds.take(dotenv.len() as int) =~= ds);
        }
        i = i + 1;
    }
    assert(fs.take(flags.len() as int) =~= fs);
    let ghost before = string_pairs(out@);
    let mut j: usize = 0;
    assert(before + overrides_spec(fs.take(0), parsed@) =~= before);
    while j < flags.len()
        invariant
            j <= flags.len(),
            fs == views(flags@),
            before == layer + defaults_spec(fs, pr, ds),
            string_pairs(out@) == before + overrides_spec(fs.take(j as int), parsed@),
        decreases flags.len() - j,
    {
        let f = &flags[j];
        proof {
            assert(fs.take(j + 1).drop_last() =~= fs.take(j as int));
            assert(fs.take(j + 1).last() == f@);
        }
        match resolve_flag(parsed, f) {
            Some(v) => {
                let ghost prev = out@;
                let ghost vv = v@;
                out.push((f.env.clone(), v));
                assert(string_pairs(out@) =~= string_pairs(prev).push((f@.0, vv)));
            },
            None => {},
        }
        j = j + 1;
    }
    assert(fs.take(flags.len() as int) =~= fs);
    out
}

// ---------------------------------------------------------------------------
// A trailing `--name=value`
// ---------------------------------------------------------------------------

proof fn lemma_find_equals(k: Seq<char>, v: Seq<char>)
    requires
        !k.contains('='),
    ensures
        find_char(k + seq!['='] + v, '=') == Some(k.len() as int),
    decreases k.len(),
{
    let t = k + seq!['='] + v;
    if k.len() == 0 {
        assert(t[0] == '=');
    } else {
        assert(k[0] != '=');
        assert(t[0] == k[0]);
        let k2 = k.drop_first();
        assert(!k2.contains('=')) by {
            if k2.contains('=') {
                let j = choose|j: int| 0 <= j < k2.len() && k2[j] == '=';
                assert(k[j + 1] == '=');
            }
        }
        lemma_find_equals(k2, v);
        assert(t.drop_first() =~= k2 + seq!['='] + v);
    }
}

/// The argument `--name=value`.
pub open spec fn pair_arg(k: Seq<char>, v: Seq<char>) -> Seq<char> {
    "--"@ + k + seq!['='] + v
}

proof fn lemma_entries_with_pair(args: Seq<Seq<char>>, k: Seq<char>, v: Seq<char>, i: int)
    requires
        0 <= i <= args.len(),
        !k.contains('='),
    ensures
        flag_entries_from(args.push(pair_arg(k, v)), i) == flag_entries_from(args, i) + seq![
            (k, v),
        ],
    decreases args.len() - i,
{
    let a2 = args.push(pair_arg(k, v));
    reveal_strlit("--");
    reveal_strlit("-");
    let p = pair_arg(k, v);
    assert(p.take(2) =~= "--"@);
    assert(p.take(1) =~= "-"@);
    if i == args.len() {
        assert(a2[i] == p);
        assert(p.skip(2) =~= k + seq!['='] + v);
        lemma_find_equals(k, v);
        let rest = p.skip(2);
        assert(rest.take(k.len() as int) =~= k);
        assert(rest.skip(k.len() as int + 1) =~= v);
        assert(flag_entries_from(a2, i + 1) =~= Seq::<(Seq<char>, Seq<char>)>::empty());
        assert(flag_entries_from(args, i) =~= Seq::<(Seq<char>, Seq<char>)>::empty());
        assert(seq![(k, v)] + Seq::<(Seq<char>, Seq<char>)>::empty() =~= seq![(k, v)]);
        assert(Seq::<(Seq<char>, Seq<char>)>::empty() + seq![(k, v)] =~= seq![(k, v)]);
    } else {
        assert(a2[i] == args[i]);
        assert(takes_value(a2, i) == takes_value(args, i)) by {
            if i + 1 == args.len() {
                assert(a2[i + 1] == p);
            } else if i + 1 < args.len() {
                assert(a2[i + 1] == args[i + 1]);
            }
        }
        if takes_value(args, i) {
            assert(a2[i + 1] == args[i + 1]);
        }
        assert(flag_step(a2, i) == flag_step(args, i));
        let (e, j) = flag_step(args, i);
        assert(i < j <= args.len());
        lemma_entries_with_pair(args, k, v, j);
        match e {
            Some(kv) => {
                assert(seq![kv] + (flag_entries_from(args, j) + seq![(k, v)]) =~= (seq![kv]
                    + flag_entries_from(args, j)) + seq![(k, v)]);
            },
            None => {},
        }
    }
}

proof fn lemma_last_value_push(s: Seq<(Seq<char>, Seq<char>)>, k: Seq<char>, v: Seq<char>)
    ensures
        last_value(s.push((k, v)), k) == Some(v),
{
    assert(s.push((k, v)).last() == (k, v));
}

/// A trailing `--name=value` (the name holding no `=`) always ends as the name's value,
/// whatever comes before it.
pub proof fn lemma_trailing_pair_wins(args: Seq<Seq<char>>, k: Seq<char>, v: Seq<char>)
    requires
        !k.contains('='),
    ensures
        parse_flags_spec(args.push(pair_arg(k, v))).dom().contains(k),
        parse_flags_spec(args.push(pair_arg(k, v)))[k] == v,
{
    lemma_entries_with_pair(args, k, v, 0);
    let es = flag_entries_from(args, 0) + seq![(k, v)];
    assert(es =~= flag_entries_from(args, 0).push((k, v)));
    lemma_last_value_push(flag_entries_from(args, 0), k, v);
}

// ---------------------------------------------------------------------------
// Precedence
// ---------------------------------------------------------------------------

proof fn lemma_last_value_concat(a: Seq<(Seq<char>, Seq<char>)>, b: Seq<(Seq<char>, Seq<char>)>, k: Seq<char>)
    ensures
        last_value(a + b, k) == (if last_value(b, k) is Some {
            last_value(b, k)
        } else {
            last_value(a, k)
        }),
    decreases b.len(),
{
    if b.len() == 0 {
        assert(a + b =~= a);
    } else {
        assert((a + b).drop_last() =~= a + b.drop_last());
        assert((a + b).last() == b.last());
        lemma_last_value_concat(a, b.drop_last(), k);
    }
}

proof fn lemma_defaults_absent(
    flags: Seq<FlagView>,
    present: Seq<Seq<char>>,
    dotenv: Seq<(Seq<char>, Seq<char>)>,
    k: Seq<char>,
)
    requires
        forall|j: int| 0 <= j < flags.len() ==> (#[trigger] flags[j]).0 != k,
    ensures
        last_value(defaults_spec(flags, present, dotenv), k) is None,
    decreases flags.len(),
{
    if flags.len() > 0 {
        let init = flags.drop_last();
        assert forall|j: int| 0 <= j < init.len() implies (#[trigger] init[j]).0 != k by {
            assert(init[j] == flags[j]);
        }
        lemma_defaults_absent(init, present, dotenv, k);
        let f = flags.last();
        assert(f == flags[flags.len() - 1]);
        let r = defaults_spec(init, present, dotenv);
        assert(r.push((f.0, f.3->0)).drop_last() =~= r);
    }
}

proof fn lemma_overrides_absent(flags: Seq<FlagView>, parsed: Map<Seq<char>, Seq<char>>, k: Seq<char>)
    requires
        forall|j: int| 0 <= j < flags.len() ==> (#[trigger] flags[j]).0 != k,
    ensures
        last_value(overrides_spec(flags, parsed), k) is None,
    decreases flags.len(),
{
    if flags.len() > 0 {
        let init = flags.drop_last();
        assert forall|j: int| 0 <= j < init.len() implies (#[trigger] init[j]).0 != k by {
            assert(init[j] == flags[j]);
        }
        lemma_overrides_absent(init, parsed, k);
        let f = flags.last();
        assert(f == flags[flags.len() - 1]);
        let r = overrides_spec(init, parsed);
        if let Some(v) = resolve_spec(parsed, f.1, f.2) {
            assert(r.push((f.0, v)).drop_last() =~= r);
        }
    }
}

/// Whether no two flags set the same variable.
pub open spec fn distinct_variables(flags: Seq<FlagView>) -> bool {
    forall|a: int, b: int| 0 <= a < b < flags.len() ==> (#[trigger] flags[a]).0 != (#[trigger] flags[b]).0
}

proof fn lemma_defaults_at(
    flags: Seq<FlagView>,
    present: Seq<Seq<char>>,
    dotenv: Seq<(Seq<char>, Seq<char>)>,
    i: int,
)
    requires
        0 <= i < flags.len(),
        distinct_variables(flags),
    ensures
        last_value(defaults_spec(flags, present, dotenv), flags[i].0) == (if !present.contains(
            flags[i].0,
        ) && first_value(dotenv, flags[i].0) is None {
            flags[i].3
        } else {
            None
        }),
    decreases flags.len(),
{
    let init = flags.drop_last();
    let n = flags.len() - 1;
    let f = flags.last();
    assert(f == flags[n]);
    let r = defaults_spec(init, present, dotenv);
    assert(r.push((f.0, f.3->0)).drop_last() =~= r);
    if i == n {
        assert forall|j: int| 0 <= j < init.len() implies (#[trigger] init[j]).0 != flags[i].0 by {
            assert(init[j] == flags[j]);
        }
        lemma_defaults_absent(init, present, dotenv, flags[i].0);
    } else {
        assert forall|a: int, b: int| 0 <= a < b < init.len() implies (#[trigger] init[a]).0
            != (#[trigger] init[b]).0 by {
            assert(init[a] == flags[a] && init[b] == flags[b]);
        }
        lemma_defaults_at(init, present, dotenv, i);
        assert(init[i] == flags[i]);
        assert(flags[i].0 != flags[n].0);
    }
}

/// What `.env` gives a variable: nothing when the environment already sets it, else the
/// value of its first entry, if any.
pub proof fn lemma_dotenv_fills_unset(
    dotenv: Seq<(Seq<char>, Seq<char>)>,
    present: Seq<Seq<char>>,
    k: Seq<char>,
)
    ensures
        last_value(dotenv_spec(dotenv, present), k) == (if present.contains(k) {
            None
        } else {
            first_value(dotenv, k)
        }),
    decreases dotenv.len(),
{
    if dotenv.len() > 0 {
        let init = dotenv.drop_last();
        let e = dotenv.last();
        let r = dotenv_spec(init, present);
        lemma_dotenv_fills_unset(init, present, k);
        assert(r.push(e).drop_last() =~= r);
    }
}

proof fn lemma_overrides_at(flags: Seq<FlagView>, parsed: Map<Seq<char>, Seq<char>>, i: int)
    requires
        0 <= i < flags.len(),
        distinct_variables(flags),
    ensures
        last_value(overrides_spec(flags, parsed), flags[i].0) == resolve_spec(
            parsed,
            flags[i].1,
            flags[i].2,
        ),
    decreases flags.len(),
{
    let init = flags.drop_last();
    let n = flags.len() - 1;
    let f = flags.last();
    assert(f == flags[n]);
    let r = overrides_spec(init, parsed);
    if let Some(v) = resolve_spec(parsed, f.1, f.2) {
        assert(r.push((f.0, v)).drop_last() =~= r);
    }
    if i == n {
        assert forall|j: int| 0 <= j < init.len() implies (#[trigger] init[j]).0 != flags[i].0 by {
            assert(init[j] == flags[j]);
        }
        lemma_overrides_absent(init, parsed, flags[i].0);
    } else {
        assert forall|a: int, b: int| 0 <= a < b < init.len() implies (#[trigger] init[a]).0
            != (#[trigger] init[b]).0 by {
            assert(init[a] == flags[a] && init[b] == flags[b]);
        }
        lemma_overrides_at(init, parsed, i);
        assert(init[i] == flags[i]);
        assert(flags[i].0 != flags[n].0);
    }
}

/// Start-up's precedence, command line > environment > `.env` > defaults: once its
/// assignments are made in order, a flag's variable holds the value given by one of its
/// command-line flags (long names first, then the short one); without one, it is left alone
/// when the environment already sets it; otherwise it takes its first `.env` entry, else its
/// default. (Each variable is named by one flag.)
pub proof fn lemma_command_line_wins(
    flags: Seq<FlagView>,
    present: Seq<Seq<char>>,
    dotenv: Seq<(Seq<char>, Seq<char>)>,
    parsed: Map<Seq<char>, Seq<char>>,
    i: int,
)
    requires
        0 <= i < flags.len(),
        distinct_variables(flags),
    ensures
        last_value(env_assignments_spec(flags, present, dotenv, parsed), flags[i].0)
            == match resolve_spec(parsed, flags[i].1, flags[i].2) {
            Some(v) => Some(v),
            None => if present.contains(flags[i].0) {
                None
            } else {
                match first_value(dotenv, flags[i].0) {
                    Some(d) => Some(d),
                    None => flags[i].3,
                }
            },
        },
{
    let k = flags[i].0;
    let d = dotenv_spec(dotenv, present);
    let f = defaults_spec(flags, present, dotenv);
    let o = overrides_spec(flags, parsed);
    assert(d + f + o == (d + f) + o);
    lemma_last_value_concat(d + f, o, k);
    lemma_last_value_concat(d, f, k);
    lemma_dotenv_fills_unset(dotenv, present, k);
    lemma_defaults_at(flags, present, dotenv, i);
    lemma_overrides_at(flags, parsed, i);
}

/// The built-in flags name each variable once.
pub proof fn lemma_builtin_flags_distinct()
    ensures
        distinct_variables(builtin_flags_spec()),
{
    let f = builtin_flags_spec();
    assert(f[0].0 == "SUPABASE_URL"@);
    assert(f[1].0 == "SUPABASE_ANON_KEY"@);
    assert(f[2].0 == "OPENWEATHER_API_KEY"@);
    assert(f[3].0 == "OPEN_METEO_BASE_URL"@);
    assert(f[4].0 == "OPEN_METEO_API_KEY"@);
    assert(f[5].0 == "FINNHUB_API_KEY"@);
    assert(f[6].0 == "NEWSAPI_KEY"@);
    assert(f[7].0 == "GIT_REPO_PATH"@);
    assert(f[8].0 == "CONFIG_DIR"@);
    assert forall|a: int, b: int| 0 <= a < b < f.len() implies (#[trigger] f[a]).0 != (#[trigger] f[b]).0 by {
        reveal_strlit("SUPABASE_URL");
        reveal_strlit("SUPABASE_ANON_KEY");
        reveal_strlit("OPENWEATHER_API_KEY");
        reveal_strlit("OPEN_METEO_BASE_URL");
        reveal_strlit("OPEN_METEO_API_KEY");
        reveal_strlit("FINNHUB_API_KEY");
        reveal_strlit("NEWSAPI_KEY");
        reveal_strlit("GIT_REPO_PATH");
        reveal_strlit("CONFIG_DIR");
        assert(f[a].0.len() != f[b].0.len() || f[a].0[0] != f[b].0[0] || f[a].0[1] != f[b].0[1]
            || f[a].0[4] != f[b].0[4] || f[a].0[9] != f[b].0[9]);
    }
}

} // verus!
