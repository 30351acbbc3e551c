//! Accepting or rejecting entry names by glob patterns.

use vstd::prelude::*;
use glob::Pattern;
use glob::PatternError;
use crate::text::lowercase;
use crate::text::owned;
use crate::text::push_decimal;
use crate::text::decimal;
use vstd::string::StringExecFns;

verus! {

/// A compiled pattern of the `glob` crate. What it holds is known here only
/// as the text that it was compiled from.
#[verifier::external_type_specification]
#[verifier::external_body]
pub struct ExPattern(Pattern);

/// The error that `glob` reports for a malformed pattern: a character
/// position and a fixed message.
#[verifier::external_type_specification]
pub struct ExPatternError(PatternError);

/// The text that a compiled pattern was made from, which `Pattern::as_str`
/// hands back.
pub uninterp spec fn pattern_text(p: Pattern) -> Seq<char>;

/// What `Pattern::new` finds wrong with a pattern text: `None` where the text
/// compiles, else the position and the message of the error.
pub uninterp spec fn glob_syntax_error(text: Seq<char>) -> Option<(usize, Seq<char>)>;

/// Whether the pattern compiled from `text` matches `name` as a whole, under
/// the crate's default match options (`Pattern::matches`).
pub uninterp spec fn glob_matches(text: Seq<char>, name: Seq<char>) -> bool;

/// `glob::Pattern::new` compiles a pattern text. Whether it succeeds depends
/// on the text alone (on a given platform: the crate looks for the
/// platform's path separators). A compiled pattern keeps the text it was
/// made from, and an error carries the position and the message that belong
/// to the text.
pub assume_specification[ Pattern::new ](pattern: &str) -> (compiled: Result<Pattern, PatternError>)
    ensures
        match compiled {
            Ok(p) => glob_syntax_error(pattern@) is None && pattern_text(p) == pattern@,
            Err(e) => glob_syntax_error(pattern@) == Some((e.pos, e.msg@)),
        },
;

/// `glob::Pattern::matches` tells whether the whole of `str` matches the
/// pattern, under the crate's default match options. The answer depends on
/// the pattern's text and on `str` alone.
pub assume_specification[ Pattern::matches ](p: &Pattern, str: &str) -> (hit: bool)
    ensures
        hit == glob_matches(pattern_text(*p), str@),
;

/// A pattern text that is not a well-formed glob.
#[derive(Debug, Clone)]
pub struct PatternSyntaxError {
    /// The approximate character index of the fault.
    pub pos: usize,
    /// What is wrong.
    pub msg: String,
}

/// The sentence in which a syntax error is reported.
pub open spec fn syntax_error_text(pos: usize, msg: Seq<char>) -> Seq<char> {
    "Pattern syntax error near position "@ + decimal(pos as nat) + ": "@ + msg
}

impl PatternSyntaxError {
    /// The error as one sentence.
    pub fn message(&self) -> (text: String)
        ensures
            text@ == syntax_error_text(self.pos, self.msg@),
    {
        let mut text = owned("Pattern syntax error near position ");
        push_decimal(&mut text, self.pos as u64);
        text.append(": ");
        text.append(self.msg.as_str());
        text
    }
}

/// Which names a traversal keeps: those that no exclude pattern matches and,
/// where there are inclusion patterns, that one of them matches.
#[derive(Debug, Clone)]
pub struct Filter {
    /// Inclusion patterns (none means: every name is in).
    pub include_patterns: Vec<Pattern>,
    /// Patterns to exclude.
    pub exclude_patterns: Vec<Pattern>,
    /// Whether names and patterns are compared in lower case.
    pub ignore_case: bool,
}

/// The model of a `Filter`: the texts of its patterns, in the order in which
/// they were added.
pub ghost struct FilterView {
    pub include_texts: Seq<Seq<char>>,
    pub exclude_texts: Seq<Seq<char>>,
    pub ignore_case: bool,
}

/// The texts of a run of compiled patterns.
pub open spec fn pattern_texts(patterns: Seq<Pattern>) -> Seq<Seq<char>> {
    patterns.map_values(|p: Pattern| pattern_text(p))
}

/// Whether one of the patterns matches the name.
pub open spec fn any_matches(texts: Seq<Seq<char>>, name: Seq<char>) -> bool {
    exists|i: int| 0 <= i < texts.len() && glob_matches(#[trigger] texts[i], name)
}

impl FilterView {
    /// The form in which a pattern or a name is compared: in lower case
    /// where case is ignored, else as given.
    pub open spec fn normalized(self, text: Seq<char>) -> Seq<char> {
        if self.ignore_case {
            lowercase(text)
        } else {
            text
        }
    }

    /// Whether an exclude pattern matches the name.
    pub open spec fn excludes(self, name: Seq<char>) -> bool {
        any_matches(self.exclude_texts, self.normalized(name))
    }

    /// Whether an inclusion pattern matches the name.
    pub open spec fn includes(self, name: Seq<char>) -> bool {
        any_matches(self.include_texts, self.normalized(name))
    }

    /// Whether the filter keeps the name.
    pub open spec fn accepts(self, name: Seq<char>) -> bool {
        !self.excludes(name) && (self.include_texts.len() == 0 || self.includes(name))
    }
}

impl View for Filter {
    type V = FilterView;

    open spec fn view(&self) -> FilterView {
        FilterView {
            include_texts: pattern_texts(self.include_patterns@),
            exclude_texts: pattern_texts(self.exclude_patterns@),
            ignore_case: self.ignore_case,
        }
    }
}

impl Default for Filter {
    fn default() -> (filter: Filter)
        ensures
            filter@.include_texts.len() == 0,
            filter@.exclude_texts.len() == 0,
            !filter@.ignore_case,
    {
        Filter { include_patterns: Vec::new(), exclude_patterns: Vec::new(), ignore_case: false }
    }
}

/// Compiles `pattern`, in lower case where `ignore_case` is set.
fn compile(pattern: &str, ignore_case: bool) -> (compiled: Result<Pattern, PatternSyntaxError>)
    ensures
        match compiled {
            Ok(p) => {
                &&& pattern_text(p) == (if ignore_case { lowercase(pattern@) } else { pattern@ })
                &&& glob_syntax_error(pattern_text(p)) is None
            },
            Err(e) => glob_syntax_error(if ignore_case { lowercase(pattern@) } else { pattern@ })
                == Some((e.pos, e.msg@)),
        },
{
    let text = if ignore_case { pattern.to_lowercase() } else { owned(pattern) };
    match Pattern::new(text.as_str()) {
        Ok(p) => Ok(p),
        Err(e) => Err(PatternSyntaxError { pos: e.pos, msg: owned(e.msg) }),
    }
}

/// Tells whether one of the patterns matches the name.
fn matches_any(patterns: &Vec<Pattern>, name: &str) -> (hit: bool)
    ensures
        hit == any_matches(pattern_texts(patterns@), name@),
{
    let mut i: usize = 0;
    while i < patterns.len()
        invariant
            i <= patterns.len(),
            forall|j: int| 0 <= j < i ==> !glob_matches(#[trigger] pattern_texts(patterns@)[j], name@),
        decreases patterns.len() - i,
    {
        if patterns[i].matches(name) {
            assert(glob_matches(pattern_texts(patterns@)[i as int], name@));
            return true;
        }
        i = i + 1;
    }
    false
}

impl Filter {
    /// A filter without patterns, which keeps every name.
    pub fn new() -> (filter: Filter)
        ensures
            filter@.include_texts.len() == 0,
            filter@.exclude_texts.len() == 0,
            !filter@.ignore_case,
    {
        Filter { include_patterns: Vec::new(), exclude_patterns: Vec::new(), ignore_case: false }
    }

    /// Adds an inclusion pattern. A malformed pattern is reported and leaves
    /// the filter as it was.
    pub fn add_include(&mut self, pattern: &str) -> (added: Result<(), PatternSyntaxError>)
        ensures
            match added {
                Ok(_) => {
                    &&& glob_syntax_error(old(self)@.normalized(pattern@)) is None
                    &&& final(self)@ == (FilterView {
                        include_texts: old(self)@.include_texts.push(old(self)@.normalized(pattern@)),
                        ..old(self)@
                    })
                },
                Err(e) => {
                    &&& glob_syntax_error(old(self)@.normalized(pattern@)) == Some((e.pos, e.msg@))
                    &&& *final(self) == *old(self)
                },
            },
    {
        match compile(pattern, self.ignore_case) {
            Ok(p) => {
                self.include_patterns.push(p);
                assert(self@.include_texts =~= old(self)@.include_texts.push(old(self)@.normalized(pattern@)));
                Ok(())
            },
            Err(e) => Err(e),
        }
    }

    /// Adds an exclude pattern. A malformed pattern is reported and leaves
    /// the filter as it was.
    pub fn add_exclude(&mut self, pattern: &str) -> (added: Result<(), PatternSyntaxError>)
        ensures
            match added {
                Ok(_) => {
                    &&& glob_syntax_error(old(self)@.normalized(pattern@)) is None
                    &&& final(self)@ == (FilterView {
                        exclude_texts: old(self)@.exclude_texts.push(old(self)@.normalized(pattern@)),
                        ..old(self)@
                    })
                },
                Err(e) => {
                    &&& glob_syntax_error(old(self)@.normalized(pattern@)) == Some((e.pos, e.msg@))
                    &&& *final(self) == *old(self)
                },
            },
    {
        match compile(pattern, self.ignore_case) {
            Ok(p) => {
                self.exclude_patterns.push(p);
                assert(self@.exclude_texts =~= old(self)@.exclude_texts.push(old(self)@.normalized(pattern@)));
                Ok(())
            },
            Err(e) => Err(e),
        }
    }

    /// Tells whether the filter keeps `name`. Whether the name belongs to a
    /// directory plays no part.
    pub fn matches(&self, name: &str, _is_dir: bool) -> (kept: bool)
        ensures
            kept == self@.accepts(name@),
    {
        let match_name = if self.ignore_case { name.to_lowercase() } else { owned(name) };
        if matches_any(&self.exclude_patterns, match_name.as_str()) {
            return false;
        }
        if self.include_patterns.len() > 0 {
            return matches_any(&self.include_patterns, match_name.as_str());
        }
        true
    }
}

/// A name that an exclude pattern matches is rejected, whatever the inclusion
/// patterns say of it.
pub proof fn lemma_exclude_wins(filter: FilterView, name: Seq<char>)
    requires
        filter.excludes(name),
    ensures
        !filter.accepts(name),
{
}

/// A filter without inclusion patterns keeps every name that no exclude
/// pattern matches.
pub proof fn lemma_empty_include_accepts(filter: FilterView, name: Seq<char>)
    requires
        filter.include_texts.len() == 0,
        !filter.excludes(name),
    ensures
        filter.accepts(name),
{
}

} // verus!
