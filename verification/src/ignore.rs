//! Which changed paths the watcher passes over: a set of name patterns,
//! matched against every component of a path.
use vstd::prelude::*;

use crate::path::{components, path_components};
use crate::text::{
    ends_with, split, split_str, starts_with_char, str_ends_with, str_eq,
    str_starts_with_char, strip_trailing, strip_trailing_str, trim, trim_str,
};

verus! {

/// The names that are always passed over unless the filter is disabled.
pub open spec fn default_patterns() -> Set<Seq<char>> {
    set![".git"@, "target"@, "node_modules"@, ".DS_Store"@, "__pycache__"@]
}

/// The patterns given on the command line: each one trimmed, the empty
/// ones left out.
pub open spec fn cli_pattern_set(cli: Seq<Seq<char>>) -> Set<Seq<char>> {
    Set::new(|p: Seq<char>| exists|i: int| 0 <= i < cli.len() && trim(cli[i]) == p && p.len() > 0)
}

/// The pattern one line of a `.gitignore` gives: the line trimmed, with its
/// trailing `/` removed; blank lines, comments (`#`) and negations (`!`)
/// give none.
pub open spec fn gitignore_line_pattern(line: Seq<char>) -> Option<Seq<char>> {
    let t = trim(line);
    if t.len() == 0 || t[0] == '#' || t[0] == '!' {
        None
    } else {
        Some(strip_trailing(t, '/'))
    }
}

/// The patterns of a `.gitignore` file's text.  Lines are taken between
/// `\n` characters; as every line is trimmed, a `\r` before the `\n`
/// and an empty piece after a final `\n` change nothing, so this is the
/// same set that reading the text with `str::lines` gives.
pub open spec fn gitignore_pattern_set(contents: Seq<char>) -> Set<Seq<char>> {
    let lines = split(contents, '\n');
    Set::new(
        |p: Seq<char>|
            exists|i: int| 0 <= i < lines.len() && gitignore_line_pattern(lines[i]) == Some(p),
    )
}

/// Whether a component name matches a pattern: a pattern that begins with
/// `*` matches every name ending in the rest of it; any other pattern
/// matches only the name equal to it.
pub open spec fn matches_pattern(name: Seq<char>, pattern: Seq<char>) -> bool {
    if starts_with_char(pattern, '*') {
        ends_with(name, pattern.drop_first())
    } else {
        name == pattern
    }
}

/// What an ignore filter is: its patterns, and whether it is switched off.
pub struct IgnoreModel {
    pub patterns: Set<Seq<char>>,
    pub disabled: bool,
}

/// Whether a filter passes over `path`: it is switched on and some
/// component of the path matches one of its patterns.
pub open spec fn ignores(f: IgnoreModel, path: Seq<char>) -> bool {
    &&& !f.disabled
    &&& exists|i: int, p: Seq<char>|
        0 <= i < components(path).len() && f.patterns.contains(p) && #[trigger] matches_pattern(
            components(path)[i],
            p,
        )
}

/// A set of name patterns; a path is ignored when one of its components
/// matches one of them.
pub struct IgnoreFilter {
    patterns: Vec<String>,
    disabled: bool,
}

impl View for IgnoreFilter {
    type V = IgnoreModel;

    closed spec fn view(&self) -> IgnoreModel {
        IgnoreModel { patterns: self.patterns.deep_view().to_set(), disabled: self.disabled }
    }
}

/// Adds `p` to `pats` unless it is there already.
fn insert_unique(pats: &mut Vec<String>, p: String)
    requires
        old(pats).deep_view().no_duplicates(),
    ensures
        final(pats).deep_view().no_duplicates(),
        final(pats).deep_view().to_set() == old(pats).deep_view().to_set().insert(p@),
{
    let mut i: usize = 0;
    while i < pats.len()
        invariant
            0 <= i <= pats.len(),
            *pats == *old(pats),
            pats.deep_view().no_duplicates(),
            forall|k: int| 0 <= k < i ==> pats.deep_view()[k] != p@,
        decreases pats.len() - i,
    {
        if str_eq(pats[i].as_str(), p.as_str()) {
            assert(pats.deep_view().to_set().insert(p@) =~= pats.deep_view().to_set()) by {
                assert(pats.deep_view()[i as int] == p@);
            }
            return;
        }
        i = i + 1;
    }
    let ghost prev = pats.deep_view();
    pats.push(p);
    assert(pats.deep_view() =~= prev.push(p@));
    assert(!prev.contains(p@)) by {
        if prev.contains(p@) {
            let k = choose|k: int| 0 <= k < prev.len() && prev[k] == p@;
            assert(prev[k] != p@);
        }
    }
    assert(pats.deep_view().no_duplicates()) by {
        assert forall|a: int, b: int|
            0 <= a < pats.deep_view().len() && 0 <= b < pats.deep_view().len() && a != b implies pats.deep_view()[a] != pats.deep_view()[b] by {
            if a < prev.len() && b < prev.len() {
                assert(prev[a] != prev[b]);
            } else if a < prev.len() {
                assert(prev[a] != p@);
            } else if b < prev.len() {
                assert(prev[b] != p@);
            }
        }
    }
    assert(pats.deep_view().to_set() =~= prev.to_set().insert(p@)) by {
        assert forall|a: Seq<char>| pats.deep_view().contains(a) <==> (prev.contains(a) || a == p@)
            by {
            if pats.deep_view().contains(a) {
                let k = choose|k: int| 0 <= k < pats.deep_view().len() && pats.deep_view()[k] == a;
                if k < prev.len() {
                    assert(prev[k] == a);
                }
            }
            if prev.contains(a) {
                let k = choose|k: int| 0 <= k < prev.len() && prev[k] == a;
                assert(pats.deep_view()[k] == a);
            }
            if a == p@ {
                assert(pats.deep_view()[prev.len() as int] == a);
            }
        }
    }
}

impl IgnoreFilter {
    #[verifier::type_invariant]
    spec fn no_repeated_pattern(self) -> bool {
        self.patterns.deep_view().no_duplicates()
    }

    /// A filter that ignores nothing.
    pub fn disabled() -> (r: Self)
        ensures
            r@.disabled,
            r@.patterns == Set::<Seq<char>>::empty(),
    {
        let r = IgnoreFilter { patterns: Vec::new(), disabled: true };
        assert(r@.patterns =~= Set::<Seq<char>>::empty());
        r
    }

    /// A filter holding the default names, the non-blank command-line
    /// patterns (trimmed), and, when `gitignore` holds the text of a
    /// `.gitignore` file, the patterns of its lines.
    pub fn new(cli_patterns: &[String], gitignore: Option<&str>) -> (r: Self)
        ensures
            !r@.disabled,
            r@.patterns == default_patterns() + cli_pattern_set(cli_patterns.deep_view()) + match gitignore {
                Some(text) => gitignore_pattern_set(text@),
                None => Set::<Seq<char>>::empty(),
            },
    {
        let mut pats: Vec<String> = Vec::new();
        insert_unique(&mut pats, String::from_str(".git"));
        insert_unique(&mut pats, String::from_str("target"));
        insert_unique(&mut pats, String::from_str("node_modules"));
        insert_unique(&mut pats, String::from_str(".DS_Store"));
        insert_unique(&mut pats, String::from_str("__pycache__"));
        assert(pats.deep_view().to_set() =~= default_patterns());

        let ghost cli = cli_patterns.deep_view();
        let mut i: usize = 0;
        assert(cli_pattern_set(cli.take(0)) =~= Set::<Seq<char>>::empty());
        while i < cli_patterns.len()
            invariant
                cli == cli_patterns.deep_view(),
                i <= cli_patterns.len(),
                pats.deep_view().no_duplicates(),
                pats.deep_view().to_set() == default_patterns() + cli_pattern_set(
                    cli.take(i as int),
                ),
            decreases cli_patterns.len() - i,
        {
            let t = trim_str(cli_patterns[i].as_str());
            let ghost before = pats.deep_view().to_set();
            assert(cli[i as int] == cli_patterns[i as int]@);
            proof {
                lemma_cli_set_step(cli, i as int);
            }
            if t.unicode_len() > 0 {
                insert_unique(&mut pats, String::from_str(t));
                assert(pats.deep_view().to_set() =~= default_patterns() + cli_pattern_set(
                    cli.take(i + 1),
                ));
            }
            i = i + 1;
        }
        assert(cli.take(cli_patterns.len() as int) =~= cli);
        let ghost base = pats.deep_view().to_set();

        match gitignore {
            Some(text) => {
                let lines = split_str(text, '\n');
                let ghost ls = lines.deep_view();
                let mut j: usize = 0;
                assert(gitignore_pattern_set_of(ls.take(0)) =~= Set::<Seq<char>>::empty());
                while j < lines.len()
                    invariant
                        ls == lines.deep_view(),
                        j <= lines.len(),
                        pats.deep_view().no_duplicates(),
                        pats.deep_view().to_set() == base + gitignore_pattern_set_of(
                            ls.take(j as int),
                        ),
                    decreases lines.len() - j,
                {
                    assert(ls[j as int] == lines[j as int]@);
                    proof {
                        lemma_pattern_set_of_step(ls, j as int);
                    }
                    let t = trim_str(lines[j].as_str());
                    if t.unicode_len() > 0 && !str_starts_with_char(t, '#')
                        && !str_starts_with_char(t, '!') {
                        let p = strip_trailing_str(t, '/');
                        insert_unique(&mut pats, String::from_str(p));
                        assert(pats.deep_view().to_set() =~= base + gitignore_pattern_set_of(
                            ls.take(j + 1),
                        ));
                    } else {
                        assert(gitignore_line_pattern(ls[j as int]) is None);
                    }
                    j = j + 1;
                }
                assert(ls.take(lines.len() as int) =~= ls);
                assert(gitignore_pattern_set_of(ls) =~= gitignore_pattern_set(text@));
            },
            None => {
                assert(base + Set::<Seq<char>>::empty() =~= base);
            },
        }
        IgnoreFilter { patterns: pats, disabled: false }
    }

    /// Whether `name` matches `pattern`.
    pub fn matches(name: &str, pattern: &str) -> (r: bool)
        ensures
            r == matches_pattern(name@, pattern@),
    {
        if str_starts_with_char(pattern, '*') {
            let n = pattern.unicode_len();
            let suffix = pattern.substring_char(1, n);
            assert(suffix@ =~= pattern@.drop_first());
            str_ends_with(name, suffix)
        } else {
            str_eq(name, pattern)
        }
    }

    /// Whether the filter passes over `path`.
    pub fn is_ignored(&self, path: &str) -> (r: bool)
        ensures
            r == ignores(self@, path@),
    {
        if self.disabled {
            return false;
        }
        let comps = path_components(path);
        let ghost cs = components(path@);
        let ghost ps = self.patterns.deep_view();
        let mut i: usize = 0;
        while i < comps.len()
            invariant
                !self.disabled,
                comps.deep_view() == cs,
                cs == components(path@),
                ps == self.patterns.deep_view(),
                i <= comps.len(),
                forall|a: int, b: int|
                    0 <= a < i && 0 <= b < ps.len() ==> !matches_pattern(cs[a], ps[b]),
            decreases comps.len() - i,
        {
            let mut j: usize = 0;
            while j < self.patterns.len()
                invariant
                    !self.disabled,
                    comps.deep_view() == cs,
                    cs == components(path@),
                    ps == self.patterns.deep_view(),
                    i < comps.len(),
                    j <= self.patterns.len(),
                    forall|a: int, b: int|
                        0 <= a < i && 0 <= b < ps.len() ==> !matches_pattern(cs[a], ps[b]),
                    forall|b: int| 0 <= b < j ==> !matches_pattern(cs[i as int], ps[b]),
                decreases self.patterns.len() - j,
            {
                assert(cs[i as int] == comps[i as int]@);
                assert(ps[j as int] == self.patterns[j as int]@);
                if Self::matches(comps[i].as_str(), self.patterns[j].as_str()) {
                    assert(self@.patterns.contains(ps[j as int]));
                    assert(matches_pattern(components(path@)[i as int], ps[j as int]));
                    return true;
                }
                j = j + 1;
            }
            i = i + 1;
        }
        assert(!ignores(self@, path@)) by {
            if ignores(self@, path@) {
                let (a, p) = choose|a: int, p: Seq<char>|
                    0 <= a < cs.len() && self@.patterns.contains(p) && matches_pattern(cs[a], p);
                let b = choose|b: int| 0 <= b < ps.len() && ps[b] == p;
                assert(!matches_pattern(cs[a], ps[b]));
            }
        }
        false
    }
}

impl Clone for IgnoreFilter {
    fn clone(&self) -> (r: Self)
        ensures
            r@ == self@,
    {
        proof {
            use_type_invariant(self);
        }
        let mut pats: Vec<String> = Vec::new();
        let mut i: usize = 0;
        while i < self.patterns.len()
            invariant
                i <= self.patterns.len(),
                self.patterns.deep_view().no_duplicates(),
                pats.deep_view() == self.patterns.deep_view().take(i as int),
            decreases self.patterns.len() - i,
        {
            let ghost prev = pats.deep_view();
            assert(self.patterns.deep_view()[i as int] == self.patterns[i as int]@);
            assert(self.patterns.deep_view().take(i + 1) =~= prev.push(self.patterns[i as int]@));
            pats.push(self.patterns[i].clone());
            assert(pats.deep_view() =~= self.patterns.deep_view().take(i + 1));
            i = i + 1;
        }
        assert(self.patterns.deep_view().take(self.patterns.len() as int) =~= self.patterns.deep_view());
        IgnoreFilter { patterns: pats, disabled: self.disabled }
    }
}

/// The default names are `.git`, `target`, `node_modules`, `.DS_Store` and
/// `__pycache__`.
pub proof fn lemma_default_names()
    ensures
        default_patterns().contains(".git"@),
        default_patterns().contains("target"@),
        default_patterns().contains("node_modules"@),
        default_patterns().contains(".DS_Store"@),
        default_patterns().contains("__pycache__"@),
        forall|p: Seq<char>|
            default_patterns().contains(p) ==> p == ".git"@ || p == "target"@ || p
                == "node_modules"@ || p == ".DS_Store"@ || p == "__pycache__"@,
{
}

/// Every command-line pattern that is not blank is kept, trimmed.
pub proof fn lemma_cli_pattern_kept(cli: Seq<Seq<char>>, i: int)
    requires
        0 <= i < cli.len(),
        trim(cli[i]).len() > 0,
    ensures
        cli_pattern_set(cli).contains(trim(cli[i])),
{
}

/// Every command-line pattern kept is a non-blank given pattern, trimmed.
pub proof fn lemma_cli_patterns_come_from_arguments(cli: Seq<Seq<char>>, p: Seq<char>)
    requires
        cli_pattern_set(cli).contains(p),
    ensures
        p.len() > 0,
        exists|i: int| 0 <= i < cli.len() && trim(#[trigger] cli[i]) == p,
{
}

/// Every `.gitignore` line that is not blank, a comment (`#`) or a negation
/// (`!`) gives a pattern: the line trimmed, without its trailing `/`s.
pub proof fn lemma_gitignore_line_gives_pattern(contents: Seq<char>, i: int)
    requires
        0 <= i < split(contents, '\n').len(),
        trim(split(contents, '\n')[i]).len() > 0,
        trim(split(contents, '\n')[i])[0] != '#',
        trim(split(contents, '\n')[i])[0] != '!',
    ensures
        gitignore_pattern_set(contents).contains(
            strip_trailing(trim(split(contents, '\n')[i]), '/'),
        ),
{
    let lines = split(contents, '\n');
    assert(gitignore_line_pattern(lines[i]) == Some(strip_trailing(trim(lines[i]), '/')));
}

/// Every pattern of a `.gitignore` comes from a line that is not blank, a
/// comment or a negation: the line trimmed, without its trailing `/`s.
pub proof fn lemma_gitignore_patterns_come_from_lines(contents: Seq<char>, p: Seq<char>)
    requires
        gitignore_pattern_set(contents).contains(p),
    ensures
        exists|i: int|
            0 <= i < split(contents, '\n').len() && trim(#[trigger] split(contents, '\n')[i]).len()
                > 0 && trim(split(contents, '\n')[i])[0] != '#' && trim(split(contents, '\n')[i])[0]
                != '!' && p == strip_trailing(trim(split(contents, '\n')[i]), '/'),
{
    let lines = split(contents, '\n');
    let i = choose|i: int| 0 <= i < lines.len() && gitignore_line_pattern(lines[i]) == Some(p);
    assert(trim(split(contents, '\n')[i]).len() > 0);
}

/// A pattern beginning with `*` matches every name that ends with the rest
/// of it, whatever comes before.
pub proof fn lemma_glob_matches_any_prefix(prefix: Seq<char>, suffix: Seq<char>)
    ensures
        matches_pattern(prefix + suffix, seq!['*'] + suffix),
{
    let name = prefix + suffix;
    let pat = seq!['*'] + suffix;
    assert(pat.drop_first() =~= suffix);
    assert(name.subrange(name.len() - suffix.len(), name.len() as int) =~= suffix);
}

/// A pattern beginning with `*` matches only names that end with the rest
/// of it; any other pattern matches only the name equal to it.
pub proof fn lemma_pattern_matches_only(name: Seq<char>, pattern: Seq<char>)
    requires
        matches_pattern(name, pattern),
    ensures
        pattern.len() > 0 && pattern[0] == '*' ==> name.len() >= pattern.len() - 1 && name.subrange(
            name.len() - (pattern.len() - 1),
            name.len() as int,
        ) == pattern.subrange(1, pattern.len() as int),
        !(pattern.len() > 0 && pattern[0] == '*') ==> name == pattern,
{
    if pattern.len() > 0 && pattern[0] == '*' {
        assert(pattern.drop_first() =~= pattern.subrange(1, pattern.len() as int));
    }
}

/// A switched-on filter passes over every path one of whose components, at
/// any position, matches one of its patterns.
pub proof fn lemma_matching_component_ignored(
    f: IgnoreModel,
    path: Seq<char>,
    i: int,
    p: Seq<char>,
)
    requires
        !f.disabled,
        0 <= i < components(path).len(),
        f.patterns.contains(p),
        matches_pattern(components(path)[i], p),
    ensures
        ignores(f, path),
{
}

/// A filter passes over a path only when it is switched on and some
/// component of the path matches one of its patterns.
pub proof fn lemma_ignored_has_matching_component(f: IgnoreModel, path: Seq<char>)
    requires
        ignores(f, path),
    ensures
        !f.disabled,
        exists|i: int, p: Seq<char>|
            0 <= i < components(path).len() && f.patterns.contains(p) && #[trigger] matches_pattern(
                components(path)[i],
                p,
            ),
{
}

/// Every name matches itself taken as a pattern.
pub proof fn lemma_name_matches_itself(name: Seq<char>)
    ensures
        matches_pattern(name, name),
{
    if starts_with_char(name, '*') {
        assert(name.subrange(name.len() - name.drop_first().len(), name.len() as int)
            =~= name.drop_first());
    }
}

/// A disabled filter passes over no path.
pub proof fn lemma_disabled_ignores_nothing(f: IgnoreModel, path: Seq<char>)
    requires
        f.disabled,
    ensures
        !ignores(f, path),
{
}

/// More patterns never ignore less: a switched-on filter whose patterns
/// include another's passes over every path the other passes over.
pub proof fn lemma_more_patterns_ignore_more(f: IgnoreModel, g: IgnoreModel, path: Seq<char>)
    requires
        !g.disabled,
        f.patterns.subset_of(g.patterns),
        ignores(f, path),
    ensures
        ignores(g, path),
{
    let (i, p) = choose|i: int, p: Seq<char>|
        0 <= i < components(path).len() && f.patterns.contains(p) && #[trigger] matches_pattern(
            components(path)[i],
            p,
        );
    assert(g.patterns.contains(p));
}

/// A switched-on filter that holds a name passes over every path with a
/// component of that name, at any depth; every filter `new` makes holds
/// the default names.
pub proof fn lemma_component_named_by_pattern_ignored(f: IgnoreModel, path: Seq<char>, i: int)
    requires
        !f.disabled,
        0 <= i < components(path).len(),
        f.patterns.contains(components(path)[i]),
    ensures
        ignores(f, path),
{
    lemma_name_matches_itself(components(path)[i]);
}

proof fn lemma_cli_set_step(cli: Seq<Seq<char>>, i: int)
    requires
        0 <= i < cli.len(),
    ensures
        cli_pattern_set(cli.take(i + 1)) == if trim(cli[i]).len() > 0 {
            cli_pattern_set(cli.take(i)).insert(trim(cli[i]))
        } else {
            cli_pattern_set(cli.take(i))
        },
{
    let a = cli.take(i + 1);
    let b = cli.take(i);
    assert(a[i] == cli[i]);
    assert forall|p: Seq<char>| cli_pattern_set(a).contains(p) <==> (cli_pattern_set(b).contains(p)
        || (trim(cli[i]) == p && p.len() > 0)) by {
        if cli_pattern_set(a).contains(p) {
            let k = choose|k: int| 0 <= k < a.len() && trim(#[trigger] a[k]) == p && p.len() > 0;
            if k < i {
                assert(b[k] == a[k]);
            }
        }
        if cli_pattern_set(b).contains(p) {
            let k = choose|k: int| 0 <= k < b.len() && trim(#[trigger] b[k]) == p && p.len() > 0;
            assert(a[k] == b[k]);
        }
    }
    if trim(cli[i]).len() > 0 {
        assert(cli_pattern_set(a) =~= cli_pattern_set(b).insert(trim(cli[i])));
    } else {
        assert(cli_pattern_set(a) =~= cli_pattern_set(b));
    }
}

/// The patterns of the given lines.
pub open spec fn gitignore_pattern_set_of(lines: Seq<Seq<char>>) -> Set<Seq<char>> {
    Set::new(
        |p: Seq<char>|
            exists|i: int| 0 <= i < lines.len() && gitignore_line_pattern(lines[i]) == Some(p),
    )
}

proof fn lemma_pattern_set_of_step(ls: Seq<Seq<char>>, j: int)
    requires
        0 <= j < ls.len(),
    ensures
        gitignore_pattern_set_of(ls.take(j + 1)) == match gitignore_line_pattern(ls[j]) {
            Some(p) => gitignore_pattern_set_of(ls.take(j)).insert(p),
            None => gitignore_pattern_set_of(ls.take(j)),
        },
{
    let a = ls.take(j + 1);
    let b = ls.take(j);
    assert(a[j] == ls[j]);
    assert forall|p: Seq<char>| gitignore_pattern_set_of(a).contains(p) <==> (
    gitignore_pattern_set_of(b).contains(p) || gitignore_line_pattern(ls[j]) == Some(p)) by {
        if gitignore_pattern_set_of(a).contains(p) {
            let k = choose|k: int| 0 <= k < a.len() && gitignore_line_pattern(a[k]) == Some(p);
            if k < j {
                assert(b[k] == a[k]);
            }
        }
        if gitignore_pattern_set_of(b).contains(p) {
            let k = choose|k: int| 0 <= k < b.len() && gitignore_line_pattern(b[k]) == Some(p);
            assert(a[k] == b[k]);
        }
    }
    match gitignore_line_pattern(ls[j]) {
        Some(p) => {
            assert(gitignore_pattern_set_of(a) =~= gitignore_pattern_set_of(b).insert(p));
        },
        None => {
            assert(gitignore_pattern_set_of(a) =~= gitignore_pattern_set_of(b));
        },
    }
}

} // verus!
