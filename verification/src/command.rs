//! Commands: the usage text that lists them, and picking one by name.
use vstd::prelude::*;

use crate::configuration::Configuration;
use crate::pattern::str_equal;

verus! {

/// Whether `a` comes no later than `b` in the order of strings: character by
/// character, a prefix first.
pub open spec fn lex_le(a: Seq<char>, b: Seq<char>) -> bool
    decreases a.len(),
{
    if a.len() == 0 {
        true
    } else if b.len() == 0 {
        false
    } else if a[0] != b[0] {
        (a[0] as int) < (b[0] as int)
    } else {
        lex_le(a.drop_first(), b.drop_first())
    }
}

/// Of two strings, one comes no later than the other.
proof fn lemma_lex_total(a: Seq<char>, b: Seq<char>)
    ensures
        lex_le(a, b) || lex_le(b, a),
    decreases a.len(),
{
    if a.len() > 0 && b.len() > 0 && a[0] == b[0] {
        lemma_lex_total(a.drop_first(), b.drop_first());
    }
}

/// The order of strings is transitive.
proof fn lemma_lex_trans(a: Seq<char>, b: Seq<char>, c: Seq<char>)
    requires
        lex_le(a, b),
        lex_le(b, c),
    ensures
        lex_le(a, c),
    decreases a.len(),
{
    if a.len() > 0 && b.len() > 0 && c.len() > 0 && a[0] == b[0] && b[0] == c[0] {
        lemma_lex_trans(a.drop_first(), b.drop_first(), c.drop_first());
    }
}

/// Whether `a` comes no later than `b`.
fn str_lex_le(a: &str, b: &str) -> (r: bool)
    ensures
        r == lex_le(a@, b@),
{
    let n = a.unicode_len();
    let m = b.unicode_len();
    let mut i: usize = 0;
    assert(a@.skip(0) == a@);
    assert(b@.skip(0) == b@);
    while i < n && i < m
        invariant
            n == a@.len(),
            m == b@.len(),
            i <= n,
            i <= m,
            a@.subrange(0, i as int) == b@.subrange(0, i as int),
            lex_le(a@, b@) == lex_le(a@.skip(i as int), b@.skip(i as int)),
        decreases n - i,
    {
        let x = a.get_char(i);
        let y = b.get_char(i);
        proof {
            let sa = a@.skip(i as int);
            let sb = b@.skip(i as int);
            assert(sa[0] == x && sb[0] == y);
            assert(sa.drop_first() == a@.skip(i + 1));
            assert(sb.drop_first() == b@.skip(i + 1));
        }
        if x != y {
            return (x as u32) < (y as u32);
        }
        proof {
            assert(a@.subrange(0, i + 1) == a@.subrange(0, i as int).push(x));
            assert(b@.subrange(0, i + 1) == b@.subrange(0, i as int).push(y));
        }
        i = i + 1;
    }
    proof {
        assert(a@.skip(i as int).len() == n - i);
        assert(b@.skip(i as int).len() == m - i);
    }
    i == n
}

/// The usage text before the list of commands.
pub open spec fn usage_header() -> Seq<char> {
    "\nUsage:\n    diecast <command> [<args>...]\n    diecast [options]\n\nOptions:\n    -h, --help           Print this message\n    -v, --version        Print version info\n\nPossible commands include:\n"@
}

/// The line of the usage text for a command: its name, padded to twelve
/// columns, and its description.
pub open spec fn usage_line(name: Seq<char>, description: Seq<char>) -> Seq<char> {
    "    "@ + name + Seq::new((12 - name.len()) as nat, |i: int| ' ') + description + "\n"@
}

/// The lines for the given commands, in order.
pub open spec fn usage_lines(entries: Seq<(String, String)>) -> Seq<char>
    decreases entries.len(),
{
    if entries.len() == 0 {
        Seq::empty()
    } else {
        usage_lines(entries.drop_last()) + usage_line(entries.last().0@, entries.last().1@)
    }
}

/// The names of the commands, each once, in the order of strings.
pub open spec fn sorted_by_name(entries: Seq<(String, String)>) -> bool {
    forall|i: int, j: int| 0 <= i < j < entries.len() ==> lex_le(#[trigger] entries[i].0@, #[trigger] entries[j].0@)
}

/// The name and description of each command, by view.
pub open spec fn entry_views(entries: Seq<(String, String)>) -> Seq<(Seq<char>, Seq<char>)> {
    entries.map_values(|e: (String, String)| (e.0@, e.1@))
}

/// Appends `count` spaces.
fn pad(s: &mut String, count: usize)
    ensures
        final(s)@ == old(s)@ + Seq::new(count as nat, |i: int| ' '),
{
    let mut k: usize = 0;
    while k < count
        invariant
            k <= count,
            s@ == old(s)@ + Seq::new(k as nat, |i: int| ' '),
        decreases count - k,
    {
        s.append(" ");
        proof {
            reveal_strlit(" ");
            assert(Seq::new((k + 1) as nat, |i: int| ' ') =~= Seq::new(k as nat, |i: int| ' ').push(' '));
            assert(" "@ =~= seq![' ']);
        }
        k = k + 1;
    }
}

/// The commands sorted by name.
fn sort_entries(entries: &Vec<(String, String)>) -> (r: Vec<(String, String)>)
    ensures
        sorted_by_name(r@),
        entry_views(r@).to_multiset() == entry_views(entries@).to_multiset(),
{
    let mut r: Vec<(String, String)> = Vec::new();
    let mut i: usize = 0;
    assert(entry_views(r@) =~= Seq::<(Seq<char>, Seq<char>)>::empty());
    assert(entry_views(entries@.take(0)) =~= Seq::<(Seq<char>, Seq<char>)>::empty());
    while i < entries.len()
        invariant
            i <= entries@.len(),
            sorted_by_name(r@),
            entry_views(r@).to_multiset() == entry_views(entries@.take(i as int)).to_multiset(),
        decreases entries@.len() - i,
    {
        let e = &entries[i];
        let mut pos: usize = r.len();
        while pos > 0 && !str_lex_le(r[pos - 1].0.as_str(), e.0.as_str())
            invariant
                pos <= r@.len(),
                sorted_by_name(r@),
                forall|q: int| pos <= q < r@.len() ==> !lex_le(#[trigger] r@[q].0@, e.0@),
            decreases pos,
        {
            pos = pos - 1;
        }
        let ghost r0 = r@;
        r.insert(pos, (e.0.clone(), e.1.clone()));
        proof {
            let item = (e.0, e.1);
            assert(r@ == r0.insert(pos as int, item));
            assert forall|a: int, b: int| 0 <= a < b < r@.len() implies lex_le(#[trigger] r@[a].0@, #[trigger] r@[b].0@) by {
                if a < pos && b == pos {
                    assert(lex_le(r0[pos - 1].0@, e.0@));
                    if a < pos - 1 {
                        lemma_lex_trans(r0[a].0@, r0[pos - 1].0@, e.0@);
                    }
                } else if a == pos && b > pos {
                    assert(!lex_le(r0[b - 1].0@, e.0@));
                    lemma_lex_total(r0[b - 1].0@, e.0@);
                } else if a < pos && b > pos {
                    assert(r@[a] == r0[a] && r@[b] == r0[b - 1]);
                } else if a > pos {
                    assert(r@[a] == r0[a - 1] && r@[b] == r0[b - 1]);
                }
            }
            let v0 = entry_views(r0);
            let v = entry_views(r@);
            let ev = (e.0@, e.1@);
            assert(v == v0.insert(pos as int, ev));
            vstd::seq_lib::to_multiset_insert(v0, pos as int, ev);
            assert(entries@.take(i + 1) == entries@.take(i as int).push(*e));
            assert(entry_views(entries@.take(i + 1)) == entry_views(entries@.take(i as int)).push(ev));
            vstd::seq_lib::to_multiset_build(entry_views(entries@.take(i as int)), ev);
        }
        i = i + 1;
    }
    assert(entries@.take(entries@.len() as int) == entries@);
    r
}

/// The usage text: the header, then a line for each command, in the order
/// of their names.
pub fn usage(entries: &Vec<(String, String)>) -> (r: String)
    requires
        forall|i: int| 0 <= i < entries@.len() ==> (#[trigger] entries@[i]).0@.len() <= 11,
    ensures
        exists|sorted: Seq<(String, String)>|
            #![trigger usage_lines(sorted)]
            sorted_by_name(sorted) && entry_views(sorted).to_multiset() == entry_views(entries@).to_multiset()
                && r@ == usage_header() + usage_lines(sorted),
{
    let sorted = sort_entries(entries);
    proof {
        assert forall|q: int| 0 <= q < sorted@.len() implies (#[trigger] sorted@[q]).0@.len() <= 11 by {
            let ev = entry_views(sorted@)[q];
            vstd::seq_lib::to_multiset_contains(entry_views(sorted@), ev);
            vstd::seq_lib::to_multiset_contains(entry_views(entries@), ev);
            assert(entry_views(sorted@).contains(ev));
            let i = choose|i: int| 0 <= i < entry_views(entries@).len() && entry_views(entries@)[i] == ev;
            assert(entries@[i].0@ == ev.0);
        }
    }
    let mut r = String::from_str(
        "\nUsage:\n    diecast <command> [<args>...]\n    diecast [options]\n\nOptions:\n    -h, --help           Print this message\n    -v, --version        Print version info\n\nPossible commands include:\n",
    );
    let mut i: usize = 0;
    while i < sorted.len()
        invariant
            i <= sorted@.len(),
            r@ == usage_header() + usage_lines(sorted@.take(i as int)),
            forall|q: int| 0 <= q < sorted@.len() ==> (#[trigger] sorted@[q]).0@.len() <= 11,
        decreases sorted@.len() - i,
    {
        let (name, description) = (&sorted[i].0, &sorted[i].1);
        r.append("    ");
        r.append(name.as_str());
        let width = name.unicode_len();
        pad(&mut r, 12 - width);
        r.append(description.as_str());
        r.append("\n");
        proof {
            let t = sorted@.take(i + 1);
            assert(t.drop_last() == sorted@.take(i as int));
            assert(t.last() == sorted@[i as int]);
        }
        i = i + 1;
    }
    assert(sorted@.take(sorted@.len() as int) == sorted@);
    r
}

/// The version text: the configured version where there is one, else the
/// package version `major.minor.patch` with its pre-release suffix.
pub open spec fn version_text(
    configured: Option<Seq<char>>,
    major: Seq<char>,
    minor: Seq<char>,
    patch: Seq<char>,
    pre: Option<Seq<char>>,
) -> Seq<char> {
    "diecast "@ + match configured {
        Some(v) => v,
        None => major + "."@ + minor + "."@ + patch + match pre {
            Some(p) => p,
            None => Seq::empty(),
        },
    }
}

/// The version of the program, as `diecast 0.1.0`, from the version the
/// build was configured with or the parts of the package version.
pub fn version(configured: Option<&str>, major: &str, minor: &str, patch: &str, pre: Option<&str>) -> (r: String)
    ensures
        r@ == version_text(
            match configured {
                Some(v) => Some(v@),
                None => None,
            },
            major@,
            minor@,
            patch@,
            match pre {
                Some(p) => Some(p@),
                None => None,
            },
        ),
{
    let mut r = String::from_str("diecast ");
    match configured {
        Some(v) => {
            r.append(v);
        },
        None => {
            r.append(major);
            r.append(".");
            r.append(minor);
            r.append(".");
            r.append(patch);
            match pre {
                Some(p) => {
                    r.append(p);
                },
                None => {
                    proof {
                        assert(r@ + Seq::<char>::empty() == r@);
                    }
                },
            }
        },
    }
    r
}

/// Why no command was picked.
pub enum CommandError {
    /// Help was asked for, or no command named: the usage text.
    Help { usage: String },
    /// No command has the name: the name and the usage text.
    Unknown { name: String, usage: String },
}

/// The commands a program offers, by name and description.
pub struct Builder {
    entries: Vec<(String, String)>,
}

impl Builder {
    /// The names and descriptions of the commands.
    pub closed spec fn entries_view(&self) -> Seq<(Seq<char>, Seq<char>)> {
        entry_views(self.entries@)
    }

    /// Each command name fits the usage text: it has at most eleven
    /// characters.
    pub open spec fn names_fit_spec(&self) -> bool {
        forall|i: int| 0 <= i < self.entries_view().len() ==> (#[trigger] self.entries_view()[i]).0.len() <= 11
    }

    /// The commands `build` and `clean`.
    pub fn new() -> (r: Builder)
        ensures
            r.entries_view() == seq![("build"@, "Build the site"@), ("clean"@, "Remove output directory"@)],
    {
        let mut entries: Vec<(String, String)> = Vec::new();
        entries.push((String::from_str("build"), String::from_str("Build the site")));
        entries.push((String::from_str("clean"), String::from_str("Remove output directory")));
        let r = Builder { entries };
        assert(r.entries_view() =~= seq![("build"@, "Build the site"@), ("clean"@, "Remove output directory"@)]);
        r
    }

    /// Offer the command `name`, replacing the description of a command of
    /// that name where there is one.
    pub fn command(self, name: &str, description: &str) -> (r: Builder)
        ensures
            (exists|i: int| 0 <= i < self.entries_view().len() && #[trigger] self.entries_view()[i].0 == name@)
                ==> exists|i: int|
                0 <= i < self.entries_view().len() && #[trigger] self.entries_view()[i].0 == name@
                    && r.entries_view() == self.entries_view().update(i, (name@, description@))
                    && forall|j: int| 0 <= j < i ==> #[trigger] self.entries_view()[j].0 != name@,
            (forall|i: int| 0 <= i < self.entries_view().len() ==> #[trigger] self.entries_view()[i].0 != name@)
                ==> r.entries_view() == self.entries_view().push((name@, description@)),
    {
        let mut entries = self.entries;
        let mut i: usize = 0;
        while i < entries.len()
            invariant
                entries@ == self.entries@,
                i <= entries@.len(),
                forall|j: int| 0 <= j < i ==> #[trigger] entries@[j].0@ != name@,
            decreases entries@.len() - i,
        {
            if str_equal(entries[i].0.as_str(), name) {
                let ghost e0 = entries@;
                entries.set(i, (String::from_str(name), String::from_str(description)));
                let r = Builder { entries };
                proof {
                    assert(entry_views(e0)[i as int].0 == name@);
                    assert(r.entries_view() =~= entry_views(e0).update(i as int, (name@, description@)));
                    assert forall|j: int| 0 <= j < i implies #[trigger] entry_views(e0)[j].0 != name@ by {
                        assert(entry_views(e0)[j].0 == e0[j].0@);
                    }
                }
                return r;
            }
            i = i + 1;
        }
        let ghost e0 = entries@;
        entries.push((String::from_str(name), String::from_str(description)));
        let r = Builder { entries };
        proof {
            assert(r.entries_view() =~= entry_views(e0).push((name@, description@)));
            assert forall|i: int| 0 <= i < entry_views(e0).len() implies #[trigger] entry_views(e0)[i].0 != name@ by {
                assert(entry_views(e0)[i].0 == e0[i].0@);
            }
        }
        r
    }

    /// Whether each command name fits the usage text.
    pub fn names_fit(&self) -> (r: bool)
        ensures
            r == self.names_fit_spec(),
    {
        let mut i: usize = 0;
        while i < self.entries.len()
            invariant
                i <= self.entries@.len(),
                forall|j: int| 0 <= j < i ==> (#[trigger] self.entries@[j]).0@.len() <= 11,
            decreases self.entries@.len() - i,
        {
            if self.entries[i].0.unicode_len() > 11 {
                assert(self.entries_view()[i as int].0 == self.entries@[i as int].0@);
                return false;
            }
            i = i + 1;
        }
        proof {
            assert forall|i: int| 0 <= i < self.entries_view().len() implies (#[trigger] self.entries_view()[i]).0.len() <= 11 by {
                assert(self.entries_view()[i].0 == self.entries@[i].0@);
            }
        }
        true
    }

    /// The usage text listing the commands.
    pub fn usage(&self) -> (r: String)
        requires
            self.names_fit_spec(),
        ensures
            exists|sorted: Seq<(String, String)>|
                #![trigger usage_lines(sorted)]
                sorted_by_name(sorted) && entry_views(sorted).to_multiset()
                    == self.entries_view().to_multiset() && r@ == usage_header() + usage_lines(sorted),
    {
        proof {
            assert forall|i: int| 0 <= i < self.entries@.len() implies (#[trigger] self.entries@[i]).0@.len() <= 11 by {
                assert(self.entries_view()[i].0 == self.entries@[i].0@);
            }
        }
        usage(&self.entries)
    }

    /// Picks the command named `command`: its position among the commands.
    /// No name, or `help`, asks for the usage text; a name no command has is
    /// unknown.
    pub fn select(&self, command: &str) -> (r: Result<usize, CommandError>)
        requires
            self.names_fit_spec(),
        ensures
            r matches Ok(i) ==> i < self.entries_view().len() && self.entries_view()[i as int].0 == command@
                && command@ != ""@ && command@ != "help"@,
            r matches Err(CommandError::Help { usage }) ==> command@ == ""@ || command@ == "help"@,
            r matches Err(CommandError::Unknown { name, usage }) ==> name@ == command@ && command@ != ""@
                && command@ != "help"@ && forall|i: int|
                0 <= i < self.entries_view().len() ==> #[trigger] self.entries_view()[i].0 != command@,
            (command@ != ""@ && command@ != "help"@ && exists|i: int|
                0 <= i < self.entries_view().len() && #[trigger] self.entries_view()[i].0 == command@)
                ==> r is Ok,
    {
        if str_equal(command, "") || str_equal(command, "help") {
            return Err(CommandError::Help { usage: self.usage() });
        }
        let mut i: usize = 0;
        while i < self.entries.len()
            invariant
                i <= self.entries@.len(),
                command@ != ""@,
                command@ != "help"@,
                forall|j: int| 0 <= j < i ==> #[trigger] self.entries@[j].0@ != command@,
            decreases self.entries@.len() - i,
        {
            if str_equal(self.entries[i].0.as_str(), command) {
                assert(self.entries_view().len() == self.entries@.len());
                assert(self.entries_view()[i as int].0 == self.entries@[i as int].0@);
                return Ok(i);
            }
            i = i + 1;
        }
        proof {
            assert forall|i: int| 0 <= i < self.entries_view().len() implies #[trigger] self.entries_view()[i].0 != command@ by {
                assert(self.entries_view()[i].0 == self.entries@[i].0@);
            }
        }
        Err(CommandError::Unknown { name: String::from_str(command), usage: self.usage() })
    }
}

/// A command offered by a plugin: its name and description.
pub struct Plugin {
    pub name: String,
    pub description: String,
}

impl Plugin {
    /// A plugin command.
    pub fn new(name: &str, description: &str) -> (r: Plugin)
        ensures
            r.name@ == name@,
            r.description@ == description@,
    {
        Plugin { name: String::from_str(name), description: String::from_str(description) }
    }
}

/// The command for a live preview of the site.
pub fn plugin() -> (r: Plugin)
    ensures
        r.name@ == "live"@,
        r.description@ == "Live preview of the site"@,
{
    Plugin::new("live", "Live preview of the site")
}

/// The command that builds the site.
pub struct Build;

impl Build {
    /// What the command does.
    pub fn description(&self) -> (r: &'static str)
        ensures
            r@ == "Build the site"@,
    {
        "Build the site"
    }

    /// The configuration with the command's options applied: the number of
    /// jobs, where given, and verbosity.
    pub fn configure(&self, configuration: Configuration, jobs: Option<usize>, verbose: bool) -> (r: Configuration)
        ensures
            r == (Configuration {
                threads: match jobs {
                    Some(j) => j,
                    None => configuration.threads,
                },
                is_verbose: verbose,
                ..configuration
            }),
    {
        let threads = match jobs {
            Some(j) => j,
            None => configuration.threads,
        };
        Configuration { threads, is_verbose: verbose, ..configuration }
    }
}

/// The command that removes the output directory.
pub struct Clean;

impl Clean {
    /// What the command does.
    pub fn description(&self) -> (r: &'static str)
        ensures
            r@ == "Remove output directory"@,
    {
        "Remove output directory"
    }

    /// The configuration with the command's option applied: whether hidden
    /// files survive.
    pub fn configure(&self, configuration: Configuration, ignore_hidden: bool) -> (r: Configuration)
        ensures
            r == (Configuration { ignore_hidden, ..configuration }),
    {
        Configuration { ignore_hidden, ..configuration }
    }
}

/// Strings are ordered by their first difference: where `a` and `b` agree
/// before position `k` and differ there, the one with the smaller character
/// at `k` comes first, and the other does not; a string comes before any
/// that it is a prefix of.
pub proof fn lemma_lex_first_difference(a: Seq<char>, b: Seq<char>, k: int)
    requires
        0 <= k < a.len(),
        k < b.len(),
        a.take(k) == b.take(k),
        (a[k] as int) < (b[k] as int),
    ensures
        lex_le(a, b),
        !lex_le(b, a),
    decreases k,
{
    if k > 0 {
        assert(a[0] == a.take(k)[0]);
        assert(b[0] == b.take(k)[0]);
        assert(a.drop_first().take(k - 1) =~= b.drop_first().take(k - 1)) by {
            assert forall|j: int| 0 <= j < k - 1 implies a.drop_first()[j] == b.drop_first()[j] by {
                assert(a[j + 1] == a.take(k)[j + 1]);
                assert(b[j + 1] == b.take(k)[j + 1]);
            }
        }
        lemma_lex_first_difference(a.drop_first(), b.drop_first(), k - 1);
    }
}

/// A string comes no later than any string it is a prefix of.
pub proof fn lemma_lex_prefix(a: Seq<char>, b: Seq<char>)
    requires
        a.len() <= b.len(),
        b.take(a.len() as int) == a,
    ensures
        lex_le(a, b),
    decreases a.len(),
{
    if a.len() > 0 {
        assert(b[0] == b.take(a.len() as int)[0]);
        assert(b.drop_first().take(a.len() - 1) =~= a.drop_first()) by {
            assert forall|j: int| 0 <= j < a.len() - 1 implies b.drop_first()[j] == a.drop_first()[j] by {
                assert(b[j + 1] == b.take(a.len() as int)[j + 1]);
            }
        }
        lemma_lex_prefix(a.drop_first(), b.drop_first());
    }
}

} // verus!
