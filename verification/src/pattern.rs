//! Pattern matching behavior.
//!
//! The DSL submodule exposes helper functions for
//! constructing instances of the various built-in
//! pattern types.
//!
//! A path is written as a string: `a/b/c.md`.
use ::regex::Error as RegexSyntaxError;
use ::regex::Regex as RegexMachine;
use glob::Pattern as GlobMachine;
use glob::PatternError as GlobSyntaxError;
use vstd::prelude::*;

pub mod dsl;

verus! {

/// A kind of pattern that can be used for
/// filtering the files in the input directory.
pub trait Pattern: Send + Sync {
    /// The paths that the pattern accepts.
    spec fn accepts(&self, path: Seq<char>) -> bool;

    fn matches(&self, path: &str) -> (r: bool)
        ensures
            r == self.accepts(path@),
    ;
}

impl<P: Pattern> Pattern for Box<P> {
    open spec fn accepts(&self, path: Seq<char>) -> bool {
        (**self).accepts(path)
    }

    fn matches(&self, path: &str) -> (r: bool) {
        (**self).matches(path)
    }
}

impl<'a, P: Pattern> Pattern for &'a P {
    open spec fn accepts(&self, path: Seq<char>) -> bool {
        (**self).accepts(path)
    }

    fn matches(&self, path: &str) -> (r: bool) {
        (**self).matches(path)
    }
}

/// The negation of a pattern.
pub struct Not<P> {
    pub pattern: P,
}

impl<P: Pattern> Pattern for Not<P> {
    open spec fn accepts(&self, path: Seq<char>) -> bool {
        !self.pattern.accepts(path)
    }

    fn matches(&self, path: &str) -> (r: bool) {
        !self.pattern.matches(path)
    }
}

/// The conjunction of two patterns.
pub struct And<A, B> {
    pub left: A,
    pub right: B,
}

impl<A: Pattern, B: Pattern> Pattern for And<A, B> {
    open spec fn accepts(&self, path: Seq<char>) -> bool {
        self.left.accepts(path) && self.right.accepts(path)
    }

    fn matches(&self, path: &str) -> (r: bool) {
        self.left.matches(path) && self.right.matches(path)
    }
}

/// The disjunction of two patterns.
pub struct Or<A, B> {
    pub left: A,
    pub right: B,
}

impl<A: Pattern, B: Pattern> Pattern for Or<A, B> {
    open spec fn accepts(&self, path: Seq<char>) -> bool {
        self.left.accepts(path) || self.right.accepts(path)
    }

    fn matches(&self, path: &str) -> (r: bool) {
        self.left.matches(path) || self.right.matches(path)
    }
}

/// Another name for [`Not`].
pub type NotPattern<P> = Not<P>;

/// Another name for [`And`].
pub type AndPattern<A, B> = And<A, B>;

/// Another name for [`Or`].
pub type OrPattern<A, B> = Or<A, B>;

/// Pattern that matches everything.
#[derive(Copy, Clone)]
pub struct Everything;

impl Pattern for Everything {
    open spec fn accepts(&self, path: Seq<char>) -> bool {
        true
    }

    fn matches(&self, path: &str) -> (r: bool) {
        true
    }
}

/// Pattern that matches nothing.
#[derive(Copy, Clone)]
pub struct Nothing;

impl Pattern for Nothing {
    open spec fn accepts(&self, path: Seq<char>) -> bool {
        false
    }

    fn matches(&self, path: &str) -> (r: bool) {
        false
    }
}

/// Whether two strings hold the same characters.
pub fn str_equal(a: &str, b: &str) -> (r: bool)
    ensures
        r == (a@ == b@),
{
    let n = a.unicode_len();
    if n != b.unicode_len() {
        return false;
    }
    let mut i: usize = 0;
    while i < n
        invariant
            n == a@.len(),
            n == b@.len(),
            i <= n,
            forall|j: int| 0 <= j < i ==> a@[j] == b@[j],
        decreases n - i,
    {
        if a.get_char(i) != b.get_char(i) {
            return false;
        }
        i = i + 1;
    }
    assert(a@ =~= b@);
    true
}

/// Treat string slices as literal patterns.
impl<'s> Pattern for &'s str {
    open spec fn accepts(&self, path: Seq<char>) -> bool {
        (*self)@ == path
    }

    fn matches(&self, path: &str) -> (r: bool) {
        str_equal(self, path)
    }
}

/// Treat strings as literal patterns.
impl Pattern for String {
    open spec fn accepts(&self, path: Seq<char>) -> bool {
        self@ == path
    }

    fn matches(&self, path: &str) -> (r: bool) {
        str_equal(self.as_str(), path)
    }
}

/// A set of paths matches exactly its members.
pub struct PathSet {
    pub paths: Vec<String>,
}

impl Pattern for PathSet {
    open spec fn accepts(&self, path: Seq<char>) -> bool {
        exists|i: int| 0 <= i < self.paths@.len() && #[trigger] self.paths@[i]@ == path
    }

    fn matches(&self, path: &str) -> (r: bool) {
        let mut i: usize = 0;
        while i < self.paths.len()
            invariant
                i <= self.paths@.len(),
                forall|j: int| 0 <= j < i ==> #[trigger] self.paths@[j]@ != path@,
            decreases self.paths@.len() - i,
        {
            if str_equal(self.paths[i].as_str(), path) {
                return true;
            }
            i = i + 1;
        }
        false
    }
}

#[verifier::external_type_specification]
#[verifier::external_body]
pub struct ExGlobMachine(GlobMachine);

#[verifier::external_type_specification]
#[verifier::external_body]
pub struct ExGlobSyntaxError(GlobSyntaxError);

#[verifier::external_type_specification]
#[verifier::external_body]
pub struct ExRegexMachine(RegexMachine);

#[verifier::external_type_specification]
#[verifier::external_body]
pub struct ExRegexSyntaxError(RegexSyntaxError);

/// Whether `glob::Pattern::new` accepts the pattern text `src`.
pub uninterp spec fn glob_valid(src: Seq<char>) -> bool;

/// Whether the Unix shell style pattern `src` matches `path` under
/// `glob::Pattern::matches` with the default options.
pub uninterp spec fn glob_matches(src: Seq<char>, path: Seq<char>) -> bool;

/// Whether `regex::Regex::new` accepts the expression `src`.
pub uninterp spec fn regex_valid(src: Seq<char>) -> bool;

/// Whether the expression `src` matches somewhere in `haystack`, as
/// `regex::Regex::is_match` tells.
pub uninterp spec fn regex_is_match(src: Seq<char>, haystack: Seq<char>) -> bool;

/// The `template` with the capture groups of the first match of `src` in
/// `haystack` interpolated, as `regex::Captures::expand` writes it.
pub uninterp spec fn regex_expansion(src: Seq<char>, haystack: Seq<char>, template: Seq<char>) -> Seq<char>;

/// Compiles a glob pattern with `glob::Pattern::new`, which fails exactly on
/// the texts that are no valid pattern.
#[verifier::external_body]
fn compile_glob(src: &str) -> (r: Result<GlobMachine, GlobSyntaxError>)
    ensures
        r is Ok <==> glob_valid(src@),
{
    GlobMachine::new(src)
}

/// The text of a glob pattern that `glob::Pattern::new` refused.
pub struct InvalidGlob {
    pub source: String,
}

/// A compiled Unix shell style pattern, with the text it was compiled from.
pub struct Glob {
    source: String,
    machine: GlobMachine,
}

impl Glob {
    pub closed spec fn source_view(&self) -> Seq<char> {
        self.source@
    }

    /// Compiles `src`; fails where `src` is no valid glob pattern.
    pub fn new(src: &str) -> (r: Result<Glob, InvalidGlob>)
        ensures
            r is Ok <==> glob_valid(src@),
            match r {
                Ok(g) => g.source_view() == src@,
                Err(e) => e.source@ == src@,
            },
    {
        match compile_glob(src) {
            Ok(machine) => Ok(Glob { source: String::from_str(src), machine }),
            Err(_) => Err(InvalidGlob { source: String::from_str(src) }),
        }
    }

    /// The text the pattern was compiled from.
    pub fn as_str(&self) -> (r: &str)
        ensures
            r@ == self.source_view(),
    {
        self.source.as_str()
    }
}

/// Matches a path against a compiled glob with `glob::Pattern::matches`. A
/// `Glob` is only ever built by `Glob::new`, so its machine was compiled from
/// its source text.
#[verifier::external_body]
fn glob_match(glob: &Glob, path: &str) -> (r: bool)
    ensures
        r == glob_matches(glob.source_view(), path@),
{
    glob.machine.matches(path)
}

impl Pattern for Glob {
    open spec fn accepts(&self, path: Seq<char>) -> bool {
        glob_matches(self.source_view(), path)
    }

    fn matches(&self, path: &str) -> (r: bool) {
        glob_match(self, path)
    }
}

/// Compiles a regular expression with `regex::Regex::new`, which fails exactly
/// on the expressions that are not valid.
#[verifier::external_body]
fn compile_regex(src: &str) -> (r: Result<RegexMachine, RegexSyntaxError>)
    ensures
        r is Ok <==> regex_valid(src@),
{
    RegexMachine::new(src)
}

/// The text of a regular expression that `regex::Regex::new` refused.
pub struct InvalidRegex {
    pub source: String,
}

/// A compiled regular expression, with the text it was compiled from.
pub struct Regex {
    source: String,
    machine: RegexMachine,
}

impl Regex {
    pub closed spec fn source_view(&self) -> Seq<char> {
        self.source@
    }

    /// Compiles `src`; fails where `src` is no valid regular expression.
    pub fn new(src: &str) -> (r: Result<Regex, InvalidRegex>)
        ensures
            r is Ok <==> regex_valid(src@),
            match r {
                Ok(re) => re.source_view() == src@,
                Err(e) => e.source@ == src@,
            },
    {
        match compile_regex(src) {
            Ok(machine) => Ok(Regex { source: String::from_str(src), machine }),
            Err(_) => Err(InvalidRegex { source: String::from_str(src) }),
        }
    }

    /// The text the expression was compiled from.
    pub fn as_str(&self) -> (r: &str)
        ensures
            r@ == self.source_view(),
    {
        self.source.as_str()
    }

    /// The `template` with the capture groups of the first match in
    /// `haystack` interpolated, or `None` where there is no match.
    pub fn expand_first(&self, haystack: &str, template: &str) -> (r: Option<String>)
        ensures
            r is Some <==> regex_is_match(self.source_view(), haystack@),
            r matches Some(s) ==> s@ == regex_expansion(self.source_view(), haystack@, template@),
    {
        regex_expand(self, haystack, template)
    }
}

/// Searches `haystack` with `regex::Regex::is_match`. A `Regex` is only ever
/// built by `Regex::new`, so its machine was compiled from its source text.
#[verifier::external_body]
fn regex_search(re: &Regex, haystack: &str) -> (r: bool)
    ensures
        r == regex_is_match(re.source_view(), haystack@),
{
    re.machine.is_match(haystack)
}

/// Finds the first match with `regex::Regex::captures`, which finds one
/// exactly where `is_match` does, and interpolates `template` with
/// `regex::Captures::expand`.
#[verifier::external_body]
fn regex_expand(re: &Regex, haystack: &str, template: &str) -> (r: Option<String>)
    ensures
        r is Some <==> regex_is_match(re.source_view(), haystack@),
        r matches Some(s) ==> s@ == regex_expansion(re.source_view(), haystack@, template@),
{
    match re.machine.captures(haystack) {
        Some(caps) => {
            let mut out = String::new();
            caps.expand(template, &mut out);
            Some(out)
        },
        None => None,
    }
}

/// Allow regular expression patterns: a path matches when the expression
/// matches somewhere in it.
impl Pattern for Regex {
    open spec fn accepts(&self, path: Seq<char>) -> bool {
        regex_is_match(self.source_view(), path)
    }

    fn matches(&self, path: &str) -> (r: bool) {
        regex_search(self, path)
    }
}

/// A string literal accepts exactly the path equal to it, and no other: not
/// a longer path that ends with it, nor one it ends with.
pub proof fn lemma_literal_accepts_only_itself(literal: &str, path: Seq<char>)
    ensures
        Pattern::accepts(&literal, path) <==> path == literal@,
        path.len() != literal@.len() ==> !Pattern::accepts(&literal, path),
{
}

/// A literal held as a `String` accepts exactly the path equal to it.
pub proof fn lemma_string_accepts_only_itself(literal: String, path: Seq<char>)
    ensures
        literal.accepts(path) <==> path == literal@,
        path.len() != literal@.len() ==> !literal.accepts(path),
{
}

} // verus!
