//! Which paths to leave out: `.git` and `.own` always, and the glob patterns of the
//! `.ownignore` and `.gitignore` files, written in gitignore's style.
use vstd::prelude::*;
use crate::text::{
    trim_trailing, trim_trailing_chars, chars_of, has_char, join, lines, push_chars, split, split_chars, split_lines, starts_with,
    starts_with_chars, string_of, trim, trim_chars, views,
};

verus! {

#[verifier::external_type_specification]
#[verifier::external_body]
pub struct ExPattern(glob::Pattern);

#[verifier::external_type_specification]
#[verifier::external_body]
pub struct ExPatternError(glob::PatternError);

/// Whether `glob::Pattern::new` accepts the pattern text `p`.
pub uninterp spec fn glob_compiles(p: Seq<char>) -> bool;

/// Whether the pattern compiled from `p` matches the text `path`
/// (`glob::Pattern::matches`, with default match options).
pub uninterp spec fn glob_matches(p: Seq<char>, path: Seq<char>) -> bool;

/// The text has none of the glob metacharacters `*`, `?` and `[`: as a pattern it stands
/// for itself.
pub open spec fn literal(s: Seq<char>) -> bool {
    forall|i: int| 0 <= i < s.len() ==> s[i] != '*' && s[i] != '?' && s[i] != '['
}

/// `glob::Pattern::new`. Whether it succeeds is a function of the pattern text, named
/// `glob_compiles` (the glob crate's syntax, with `std::path::is_separator` of the target
/// platform); the compiled pattern itself is not described beyond this: the source fails
/// only on a `*` or a `[`, so a literal text compiles, into a run of `Char` tokens that
/// each match their own character, so it matches its own text.
#[verifier::external_body]
fn compile_glob(p: &str) -> (r: Result<glob::Pattern, glob::PatternError>)
    ensures
        r is Ok <==> glob_compiles(p@),
        literal(p@) ==> r is Ok,
        r is Ok && literal(p@) ==> glob_matches(p@, p@),
{
    glob::Pattern::new(p)
}

/// A compiled glob pattern, with the text it was compiled from; a negation (a `!` line of
/// an ignore file) takes back in what it matches.
#[derive(Debug)]
pub struct IgnorePattern {
    text: String,
    compiled: glob::Pattern,
    negated: bool,
}

impl IgnorePattern {
    /// The pattern's text.
    pub closed spec fn text(&self) -> Seq<char> {
        self.text@
    }

    /// Whether the pattern is a negation.
    pub closed spec fn negates(&self) -> bool {
        self.negated
    }

    /// Compiles the glob pattern `text`; the error says where and why it is not one.
    pub fn new(text: &str) -> (r: Result<Self, glob::PatternError>)
        ensures
            match r {
                Ok(p) => p.text() == text@ && !p.negates() && glob_compiles(text@) && (literal(text@)
                    ==> glob_matches(text@, text@)),
                Err(_) => !glob_compiles(text@),
            },
            literal(text@) ==> r is Ok,
    {
        match compile_glob(text) {
            Ok(compiled) => Ok(IgnorePattern { text: string_of(chars_of(text).as_slice()), compiled, negated: false }),
            Err(e) => Err(e),
        }
    }

    /// The same pattern as a negation.
    pub fn into_negation(self) -> (r: Self)
        ensures
            r.text() == self.text(),
            r.negates(),
    {
        IgnorePattern { text: self.text, compiled: self.compiled, negated: true }
    }

    /// Whether the pattern is a negation.
    pub fn is_negation(&self) -> (b: bool)
        ensures
            b == self.negates(),
    {
        self.negated
    }

    /// The pattern's text.
    pub fn as_str(&self) -> (r: &str)
        ensures
            r@ == self.text(),
    {
        self.text.as_str()
    }

    /// `glob::Pattern::matches` on the compiled pattern. An `IgnorePattern` is made only
    /// by `IgnorePattern::new` (and turned into a negation by `into_negation`, which keeps
    /// both), which compiles `text` into `compiled`, so the result is that of matching with
    /// the pattern compiled from `text`: `glob_matches`.
    #[verifier::external_body]
    pub(crate) fn matches(&self, path: &str) -> (b: bool)
        ensures
            b == glob_matches(self.text(), path@),
    {
        self.compiled.matches(path)
    }
}

// ─── Matching paths ──────────────────────────────────────────────────────────

/// `path` without one leading `./`.
pub open spec fn without_dot_slash(path: Seq<char>) -> Seq<char> {
    if starts_with(path, seq!['.', '/']) {
        path.skip(2)
    } else {
        path
    }
}

/// The patterns `v` as rules: each pattern's text and whether it is a negation.
pub open spec fn pattern_rules(v: Seq<IgnorePattern>) -> Seq<(Seq<char>, bool)> {
    v.map_values(|p: IgnorePattern| (p.text(), p.negates()))
}

/// The verdict of the rules on the text `t`: the last rule whose pattern matches `t`
/// decides, a plain rule leaving it out and a negation taking it back in; with no rule
/// matching, it stays in.
pub open spec fn excluded(rules: Seq<(Seq<char>, bool)>, t: Seq<char>) -> bool
    decreases rules.len(),
{
    if rules.len() == 0 {
        false
    } else if glob_matches(rules.last().0, t) {
        !rules.last().1
    } else {
        excluded(rules.drop_last(), t)
    }
}

/// The rules leave out `path` (relative to the repository root, one leading `./` dropped):
/// the rules exclude the path itself or one of its leading runs of components (the first
/// component, the first two joined by `/`, and so on), so that what lies in an excluded
/// directory stays out.
pub open spec fn ignored(path: Seq<char>, rules: Seq<(Seq<char>, bool)>) -> bool {
    let p = without_dot_slash(path);
    ||| excluded(rules, p)
    ||| exists|i: int|
        1 <= i <= split(p, '/').len() && excluded(rules, #[trigger] join(split(p, '/').take(i), seq!['/']))
}

/// The first component of `path` (after one leading `./`) is `.git` or `.own`.
pub open spec fn always_ignored(path: Seq<char>) -> bool {
    let c = split(without_dot_slash(path), '/')[0];
    c == seq!['.', 'g', 'i', 't'] || c == seq!['.', 'o', 'w', 'n']
}

/// The verdict of the patterns on the text `t`.
fn excluded_by(patterns: &Vec<IgnorePattern>, t: &str) -> (b: bool)
    ensures
        b == excluded(pattern_rules(patterns@), t@),
{
    let ghost rules = pattern_rules(patterns@);
    let mut k: usize = patterns.len();
    proof {
        assert(rules.take(k as int) =~= rules);
    }
    while k > 0
        invariant
            k <= patterns@.len(),
            rules == pattern_rules(patterns@),
            excluded(rules, t@) == excluded(rules.take(k as int), t@),
        decreases k,
    {
        k = k - 1;
        let ghost upto = rules.take(k + 1);
        proof {
            assert(upto.last() == (patterns@[k as int].text(), patterns@[k as int].negates()));
            assert(upto.drop_last() =~= rules.take(k as int));
        }
        if patterns[k].matches(t) {
            return !patterns[k].is_negation();
        }
    }
    false
}

/// Whether the patterns leave out `path`, given relative to the repository root (one
/// leading `./` is dropped first).
pub fn should_ignore(path: &str, patterns: &Vec<IgnorePattern>) -> (b: bool)
    ensures
        b == ignored(path@, pattern_rules(patterns@)),
{
    let chars = chars_of(path);
    let prefix: Vec<char> = vec!['.', '/'];
    let rel = if starts_with_chars(chars.as_slice(), prefix.as_slice()) {
        crate::text::sub_chars(chars.as_slice(), 2, chars.len())
    } else {
        chars
    };
    proof {
        if starts_with(path@, seq!['.', '/']) {
            assert(prefix@ =~= seq!['.', '/']);
            assert(rel@ =~= path@.skip(2));
        } else {
            assert(prefix@ =~= seq!['.', '/']);
        }
        assert(rel@ == without_dot_slash(path@));
    }
    let ghost rules = pattern_rules(patterns@);
    let whole = string_of(rel.as_slice());
    if excluded_by(patterns, whole.as_str()) {
        return true;
    }
    let comps = split_chars(rel.as_slice(), '/');
    let ghost cs = split(rel@, '/');
    let mut partial: Vec<char> = Vec::new();
    let mut i: usize = 0;
    while i < comps.len()
        invariant
            i <= comps@.len(),
            cs == split(rel@, '/'),
            views(comps@) == cs,
            partial@ == join(cs.take(i as int), seq!['/']),
            rules == pattern_rules(patterns@),
            rel@ == without_dot_slash(path@),
            !excluded(rules, rel@),
            forall|j: int| 1 <= j <= i ==> !excluded(rules, #[trigger] join(cs.take(j), seq!['/'])),
        decreases comps@.len() - i,
    {
        if i > 0 {
            partial.push('/');
        }
        push_chars(&mut partial, comps[i].as_slice());
        proof {
            let t = cs.take(i + 1);
            assert(t.drop_last() =~= cs.take(i as int));
            assert(t.last() == comps@[i as int]@);
            assert(partial@ =~= join(t, seq!['/']));
        }
        let text = string_of(partial.as_slice());
        if excluded_by(patterns, text.as_str()) {
            proof {
                assert(1 <= i + 1 <= cs.len() && excluded(rules, join(cs.take(i + 1), seq!['/'])));
            }
            return true;
        }
        i = i + 1;
    }
    false
}

/// With `.git` and `.own` as the last rules, a path under either is left out, whatever
/// rules come before.
proof fn lemma_fixed_rules_win(path: Seq<char>, rules: Seq<(Seq<char>, bool)>, pre: Seq<(Seq<char>, bool)>)
    requires
        rules == pre + fixed_rules(),
        glob_matches(seq!['.', 'g', 'i', 't'], seq!['.', 'g', 'i', 't']),
        glob_matches(seq!['.', 'o', 'w', 'n'], seq!['.', 'o', 'w', 'n']),
        always_ignored(path),
    ensures
        ignored(path, rules),
{
    let p = without_dot_slash(path);
    let cs = split(p, '/');
    crate::text::lemma_split_first(p, '/');
    let c = cs[0];
    assert(cs.take(1) =~= seq![c]);
    assert(join(cs.take(1), seq!['/']) == c);
    assert(rules.last() == (seq!['.', 'o', 'w', 'n'], false));
    assert(rules.drop_last() =~= pre + seq![(seq!['.', 'g', 'i', 't'], false)]);
    assert(rules.drop_last().last() == (seq!['.', 'g', 'i', 't'], false));
    if !glob_matches(seq!['.', 'o', 'w', 'n'], c) {
        assert(c == seq!['.', 'g', 'i', 't']);
        assert(excluded(rules.drop_last(), c));
    }
    assert(excluded(rules, c));
    assert(1 <= 1 <= cs.len() && excluded(rules, join(cs.take(1), seq!['/'])));
}

// ─── Patterns from ignore files ──────────────────────────────────────────────

/// The glob text of a gitignore pattern `p`: trailing slashes go; a leading slash
/// anchors it at the root (and goes); a pattern without a slash matches at any depth.
pub open spec fn glob_text(p: Seq<char>) -> Seq<char> {
    let q = trim_trailing(p, '/');
    if q.len() > 0 && q[0] == '/' {
        q.drop_first()
    } else if !has_char(q, '/') {
        seq!['*', '*', '/'] + q
    } else {
        q
    }
}

/// Converts a gitignore pattern into a compiled glob pattern.
pub fn convert_gitignore_pattern(pattern: &str) -> (r: Result<IgnorePattern, glob::PatternError>)
    ensures
        match r {
            Ok(p) => p.text() == glob_text(pattern@) && !p.negates() && glob_compiles(glob_text(pattern@)),
            Err(_) => !glob_compiles(glob_text(pattern@)),
        },
{
    let v = chars_of(pattern);
    let q = trim_trailing_chars(v.as_slice(), '/');
    let text: Vec<char> = if q.len() > 0 && q[0] == '/' {
        crate::text::sub_chars(q.as_slice(), 1, q.len())
    } else {
        let mut slash = false;
        let mut i: usize = 0;
        while i < q.len()
            invariant
                i <= q@.len(),
                slash == (exists|j: int| 0 <= j < i && q@[j] == '/'),
            decreases q@.len() - i,
        {
            if q[i] == '/' {
                slash = true;
            }
            i = i + 1;
        }
        if slash {
            q
        } else {
            let mut t: Vec<char> = vec!['*', '*', '/'];
            push_chars(&mut t, q.as_slice());
            t
        }
    };
    proof {
        if q@.len() > 0 && q@[0] == '/' {
            assert(text@ =~= q@.drop_first());
        }
        assert(text@ =~= glob_text(pattern@));
    }
    IgnorePattern::new(string_of(text.as_slice()).as_str())
}

/// The rules of the lines `ls` of an ignore file, in order: each line trimmed, empty
/// lines and comments (`#`) skipped, a line starting with `!` giving a negation of the rest.
pub open spec fn candidate_lines(ls: Seq<Seq<char>>) -> Seq<(Seq<char>, bool)>
    decreases ls.len(),
{
    if ls.len() == 0 {
        Seq::empty()
    } else {
        let prev = candidate_lines(ls.drop_last());
        let t = trim(ls.last());
        if t.len() == 0 || t[0] == '#' {
            prev
        } else if t[0] == '!' {
            prev.push((glob_text(t.drop_first()), true))
        } else {
            prev.push((glob_text(t), false))
        }
    }
}

/// The rules that a file's content gives (none when there is no file).
pub open spec fn file_candidates(content: Option<Seq<char>>) -> Seq<(Seq<char>, bool)> {
    match content {
        Some(c) => candidate_lines(lines(c)),
        None => Seq::empty(),
    }
}

/// The test of a rule: its glob text compiles.
pub open spec fn compiles() -> spec_fn((Seq<char>, bool)) -> bool {
    |r: (Seq<char>, bool)| glob_compiles(r.0)
}

/// The rules always in force, last so that no negation takes them back: `.git` and `.own`.
pub open spec fn fixed_rules() -> Seq<(Seq<char>, bool)> {
    seq![(seq!['.', 'g', 'i', 't'], false), (seq!['.', 'o', 'w', 'n'], false)]
}

/// The rules of `.ownignore`, then those of `.gitignore`, keeping the ones that compile,
/// then `.git` and `.own`.
pub open spec fn loaded_patterns(ownignore: Option<Seq<char>>, gitignore: Option<Seq<char>>) -> Seq<(Seq<char>, bool)> {
    (file_candidates(ownignore) + file_candidates(gitignore)).filter(compiles()) + fixed_rules()
}

/// Compiles the literal `text` and adds it as a plain rule.
fn add_pattern(out: &mut Vec<IgnorePattern>, text: &[char])
    requires
        literal(text@),
    ensures
        pattern_rules(final(out)@) == pattern_rules(old(out)@).push((text@, false)),
        glob_matches(text@, text@),
{
    let ghost before = pattern_rules(out@);
    match IgnorePattern::new(string_of(text).as_str()) {
        Ok(p) => {
            out.push(p);
            proof {
                assert(pattern_rules(out@) =~= before.push((text@, false)));
            }
        },
        Err(_) => {},
    }
}

/// Adds the rules of an ignore file's content that compile, in order.
fn add_file_patterns(out: &mut Vec<IgnorePattern>, content: &str)
    ensures
        pattern_rules(final(out)@) == pattern_rules(old(out)@) + candidate_lines(lines(content@)).filter(
            compiles(),
        ),
{
    let ls = split_lines(chars_of(content).as_slice());
    let ghost lv = lines(content@);
    let ghost start = pattern_rules(out@);
    let mut i: usize = 0;
    while i < ls.len()
        invariant
            i <= ls@.len(),
            views(ls@) == lv,
            lv == lines(content@),
            pattern_rules(out@) == start + candidate_lines(lv.take(i as int)).filter(compiles()),
        decreases ls@.len() - i,
    {
        let t = trim_chars(ls[i].as_slice());
        let ghost before = pattern_rules(out@);
        proof {
            assert(lv.take(i + 1).drop_last() =~= lv.take(i as int));
            assert(lv.take(i + 1).last() == ls@[i as int]@);
        }
        if !(t.len() == 0 || t[0] == '#') {
            let negation = t[0] == '!';
            let body = if negation {
                crate::text::sub_chars(t.as_slice(), 1, t.len())
            } else {
                t
            };
            proof {
                if negation {
                    assert(body@ =~= t@.drop_first());
                }
            }
            let c = convert_gitignore_pattern(string_of(body.as_slice()).as_str());
            let ghost g = (glob_text(body@), negation);
            match c {
                Ok(p) => {
                    if negation {
                        out.push(p.into_negation());
                    } else {
                        out.push(p);
                    }
                    proof {
                        assert(pattern_rules(out@) =~= before.push(g));
                    }
                },
                Err(_) => {},
            }
            proof {
                let prev = candidate_lines(lv.take(i as int));
                assert(candidate_lines(lv.take(i + 1)) == prev.push(g));
                reveal_with_fuel(Seq::filter, 2);
                assert(prev.push(g).drop_last() =~= prev);
            }
        }
        i = i + 1;
    }
    proof {
        assert(lv.take(i as int) =~= lv);
    }
}

/// The patterns in force: those of `.ownignore`, then those of `.gitignore` (given their
/// contents, `None` for a file that is missing or unreadable), each line converted from
/// gitignore's style and patterns that do not compile left out, then `.git` and `.own`.
/// Whatever the files say, a path under `.git` or `.own` is left out.
pub fn load_ignore_patterns(ownignore: Option<&str>, gitignore: Option<&str>) -> (r: Vec<IgnorePattern>)
    ensures
        pattern_rules(r@) == loaded_patterns(
            crate::store::opt_str(ownignore),
            crate::store::opt_str(gitignore),
        ),
        forall|path: Seq<char>| always_ignored(path) ==> #[trigger] ignored(path, pattern_rules(r@)),
{
    let mut out: Vec<IgnorePattern> = Vec::new();
    proof {
        assert(pattern_rules(out@) =~= Seq::<(Seq<char>, bool)>::empty());
    }
    match ownignore {
        Some(c) => add_file_patterns(&mut out, c),
        None => {
            proof {
                assert(pattern_rules(out@) =~= pattern_rules(out@) + Seq::<(Seq<char>, bool)>::empty());
            }
        },
    }
    let ghost a = file_candidates(crate::store::opt_str(ownignore));
    proof {
        reveal_with_fuel(Seq::filter, 1);
        assert(Seq::<(Seq<char>, bool)>::empty().filter(compiles()) =~= Seq::<(Seq<char>, bool)>::empty());
        assert(pattern_rules(out@) =~= a.filter(compiles()));
    }
    match gitignore {
        Some(c) => add_file_patterns(&mut out, c),
        None => {
            proof {
                assert(pattern_rules(out@) =~= pattern_rules(out@) + Seq::<(Seq<char>, bool)>::empty());
            }
        },
    }
    let ghost b = file_candidates(crate::store::opt_str(gitignore));
    let ghost pre = (a + b).filter(compiles());
    proof {
        Seq::filter_distributes_over_add(a, b, compiles());
        assert(pattern_rules(out@) =~= pre);
    }
    let git: Vec<char> = vec!['.', 'g', 'i', 't'];
    let own: Vec<char> = vec!['.', 'o', 'w', 'n'];
    proof {
        assert(git@ =~= seq!['.', 'g', 'i', 't']);
        assert(own@ =~= seq!['.', 'o', 'w', 'n']);
        assert(literal(git@));
        assert(literal(own@));
    }
    add_pattern(&mut out, git.as_slice());
    add_pattern(&mut out, own.as_slice());
    proof {
        assert(pattern_rules(out@) =~= pre + fixed_rules());
        assert forall|path: Seq<char>| always_ignored(path) implies #[trigger] ignored(path, pattern_rules(out@)) by {
            lemma_fixed_rules_win(path, pattern_rules(out@), pre);
        }
    }
    out
}

} // verus!
