use vstd::prelude::*;
use crate::error::{Error, ErrorDetails, ErrorId, Span};
use crate::event::Event;
use crate::value::{Spanned, Value, first_failing, lemma_first_failing_step};
use crate::frame::text_of;

verus! {

/// The names of the groups of regular expression `pattern`, by group
/// index; `None` for an unnamed group (group 0 is the whole match).
pub uninterp spec fn regex_group_names(pattern: Seq<char>) -> Seq<Option<Seq<char>>>;

/// The groups of the first match of `pattern` in `text`, by group index;
/// `None` for a group that did not take part. `None` when nothing matches.
pub uninterp spec fn regex_first_groups(pattern: Seq<char>, text: Seq<char>) -> Option<Seq<Option<Seq<char>>>>;

/// The named groups of Oniguruma regular expression `pattern`, in order,
/// each with its group numbers.
pub uninterp spec fn onig_names(pattern: Seq<char>) -> Seq<(Seq<char>, Seq<u32>)>;

/// A search of Oniguruma regular expression `pattern` in `text`: `None`
/// when the search fails (its match retry limit, say), else the groups of
/// the leftmost match by group number, `Some(None)` when nothing matches.
pub uninterp spec fn onig_search(pattern: Seq<char>, text: Seq<char>) -> Option<Option<Seq<Option<Seq<char>>>>>;

/// Whether `pattern` is a valid regular expression for the `regex` crate.
pub uninterp spec fn regex_valid(pattern: Seq<char>) -> bool;

/// Whether `pattern` is a valid Oniguruma regular expression (Ruby syntax).
pub uninterp spec fn onig_valid(pattern: Seq<char>) -> bool;

pub open spec fn opt_view(o: Option<String>) -> Option<Seq<char>> {
    match o {
        Some(s) => Some(s@),
        None => None,
    }
}

pub open spec fn opts_view(v: Seq<Option<String>>) -> Seq<Option<Seq<char>>> {
    v.map_values(|o: Option<String>| opt_view(o))
}

/// `regex::Regex`, a compiled regular expression over text, held opaque.
#[verifier::external_type_specification]
#[verifier::external_body]
pub struct ExTextRegex(regex::Regex);

/// Relies on `regex::Regex::new`: compiles `pattern`, `None` when it is not
/// a valid regular expression.
#[verifier::external_body]
fn compile(pattern: &str) -> (r: Option<regex::Regex>)
    ensures
        r is Some <==> regex_valid(pattern@),
{
    regex::Regex::new(pattern).ok()
}

/// `onig::Regex`, a compiled Oniguruma regular expression, held opaque.
#[verifier::external_type_specification]
#[verifier::external_body]
pub struct ExOnigRegex(onig::Regex);

/// Relies on `onig::Regex::new`: compiles `pattern` in Ruby syntax, `None`
/// when it is not a valid regular expression.
#[verifier::external_body]
fn compile_onig(pattern: &str) -> (r: Option<onig::Regex>)
    ensures
        r is Some <==> onig_valid(pattern@),
{
    onig::Regex::new(pattern).ok()
}

/// The syntax of a capture rule.
#[derive(Clone, Copy, Debug, PartialEq, Eq, Structural)]
pub enum Syntax {
    /// The `regex` crate's syntax.
    Rust,
    /// Oniguruma's Ruby syntax.
    Oniguruma,
}

/// A compiled `regex` crate expression with its source.
struct RustRule {
    re: regex::Regex,
    pattern: String,
}

/// A compiled Oniguruma expression with its source.
struct OnigRule {
    re: onig::Regex,
    pattern: String,
}

enum Engine {
    Rust(RustRule),
    Oniguruma(OnigRule),
}

/// A regular expression whose named groups become event fields.
pub struct CaptureRule {
    engine: Engine,
}

pub open spec fn names_view(v: Seq<(String, Vec<u32>)>) -> Seq<(Seq<char>, Seq<u32>)> {
    v.map_values(|p: (String, Vec<u32>)| (p.0@, p.1@))
}

/// Relies on `onig::Regex::foreach_name`: each named group with its group
/// numbers; `rule.re` is the compiled form of `rule.pattern`, as
/// `CaptureRule::grok`, the only constructor of an `OnigRule`, makes it.
#[verifier::external_body]
fn onig_group_names(rule: &OnigRule) -> (r: Vec<(String, Vec<u32>)>)
    ensures
        names_view(r@) == onig_names(rule.pattern@),
{
    let mut names = Vec::new();
    rule.re.foreach_name(|n, groups| {
        names.push((n.to_string(), groups.to_vec()));
        true
    });
    names
}

/// Relies on `onig::Regex::search_with_param` over the whole text with
/// default options and match parameters: `Err` when the search fails,
/// else the region of the leftmost match, group by group.
#[verifier::external_body]
fn onig_groups(rule: &OnigRule, text: &str) -> (r: Result<Option<Vec<Option<String>>>, ()>)
    ensures
        match r {
            Ok(Some(v)) => onig_search(rule.pattern@, text@) == Some(Some(opts_view(v@))),
            Ok(None) => onig_search(rule.pattern@, text@) == Some(None::<Seq<Option<Seq<char>>>>),
            Err(()) => onig_search(rule.pattern@, text@) is None,
        },
{
    let mut region = onig::Region::new();
    let opts = onig::SearchOptions::SEARCH_OPTION_NONE;
    match rule.re.search_with_param(text, 0, text.len(), opts, Some(&mut region), onig::MatchParam::default()) {
        Ok(Some(_)) => Ok(Some((0..region.len()).map(|i| region.pos(i).map(|(b, e)| text[b..e].to_string())).collect())),
        Ok(None) => Ok(None),
        Err(_) => Err(()),
    }
}

/// Relies on `regex::Regex::capture_names`; `rule.re` is the compiled form
/// of `rule.pattern`, as `CaptureRule::new`, the only constructor of a
/// `RustRule`, makes it.
#[verifier::external_body]
fn group_names(rule: &RustRule) -> (r: Vec<Option<String>>)
    ensures
        opts_view(r@) == regex_group_names(rule.pattern@),
{
    rule.re.capture_names().map(|n| n.map(|s| s.to_string())).collect()
}

/// Relies on `regex::Regex::captures`: the groups of the leftmost-first
/// match; `rule.re` is the compiled form of `rule.pattern`.
#[verifier::external_body]
fn first_groups(rule: &RustRule, text: &str) -> (r: Option<Vec<Option<String>>>)
    ensures
        match r {
            Some(v) => regex_first_groups(rule.pattern@, text@) == Some(opts_view(v@)),
            None => regex_first_groups(rule.pattern@, text@) is None,
        },
{
    rule.re.captures(text).map(|c| c.iter().map(|m| m.map(|m| m.as_str().to_string())).collect())
}

impl CaptureRule {
    pub closed spec fn spec_pattern(&self) -> Seq<char> {
        match self.engine {
            Engine::Rust(r) => r.pattern@,
            Engine::Oniguruma(r) => r.pattern@,
        }
    }

    pub closed spec fn spec_syntax(&self) -> Syntax {
        match self.engine {
            Engine::Rust(_) => Syntax::Rust,
            Engine::Oniguruma(_) => Syntax::Oniguruma,
        }
    }

    /// A rule in the `regex` crate's syntax; `None` when `pattern` is not a
    /// valid regular expression.
    pub fn new(pattern: &str) -> (r: Option<CaptureRule>)
        ensures
            r is Some <==> regex_valid(pattern@),
            r matches Some(c) ==> c.spec_pattern() == pattern@ && c.spec_syntax() == Syntax::Rust,
    {
        match compile(pattern) {
            Some(re) => Some(CaptureRule { engine: Engine::Rust(RustRule { re, pattern: pattern.to_string() }) }),
            None => None,
        }
    }

    /// A rule in Oniguruma's Ruby syntax; `None` when `pattern` is not a
    /// valid regular expression.
    pub fn grok(pattern: &str) -> (r: Option<CaptureRule>)
        ensures
            r is Some <==> onig_valid(pattern@),
            r matches Some(c) ==> c.spec_pattern() == pattern@ && c.spec_syntax() == Syntax::Oniguruma,
    {
        match compile_onig(pattern) {
            Some(re) => Some(CaptureRule { engine: Engine::Oniguruma(OnigRule { re, pattern: pattern.to_string() }) }),
            None => None,
        }
    }

    /// `(name, text)` of the named groups of the first match in `text`.
    fn pairs(&self, text: &str, out: &mut Vec<(String, String)>)
        ensures
            pairs_view(final(out)@) == pairs_view(old(out)@) + rule_pairs(self.spec_syntax(), self.spec_pattern(), text@),
    {
        let ghost mid = out@;
        match &self.engine {
            Engine::Rust(rule) => match first_groups(rule, text) {
                Some(groups) => {
                    let names = group_names(rule);
                    let n: usize = if names.len() <= groups.len() { names.len() } else { groups.len() };
                    let mut k: usize = 0;
                    while k < n
                        invariant
                            k <= n,
                            n <= names@.len(),
                            n <= groups@.len(),
                            pairs_view(out@) == pairs_view(mid) + named_pairs(opts_view(names@), opts_view(groups@), k as int),
                        decreases n - k,
                    {
                        let ghost pre = out@;
                        match (&names[k], &groups[k]) {
                            (Some(name), Some(val)) => {
                                out.push((name.as_str().to_string(), val.as_str().to_string()));
                                proof {
                                    assert(pairs_view(out@) =~= pairs_view(pre).push((name@, val@)));
                                }
                            },
                            _ => {},
                        }
                        k = k + 1;
                    }
                },
                None => {
                    proof {
                        assert(pairs_view(out@) =~= pairs_view(mid) + Seq::<(Seq<char>, Seq<char>)>::empty());
                    }
                },
            },
            Engine::Oniguruma(rule) => match onig_groups(rule, text) {
                Ok(Some(groups)) => {
                    let names = onig_group_names(rule);
                    let mut k: usize = 0;
                    while k < names.len()
                        invariant
                            k <= names@.len(),
                            pairs_view(out@) == pairs_view(mid) + grok_pairs(names_view(names@), opts_view(groups@), k as int),
                        decreases names@.len() - k,
                    {
                        let ghost pre = out@;
                        let (name, nums) = &names[k];
                        if nums.len() > 0 {
                            let g = nums[0] as usize;
                            if g < groups.len() {
                                match &groups[g] {
                                    Some(val) => {
                                        out.push((name.as_str().to_string(), val.as_str().to_string()));
                                        proof {
                                            assert(pairs_view(out@) =~= pairs_view(pre).push((name@, val@)));
                                        }
                                    },
                                    None => {},
                                }
                            }
                        }
                        k = k + 1;
                    }
                },
                _ => {
                    proof {
                        assert(pairs_view(out@) =~= pairs_view(mid) + Seq::<(Seq<char>, Seq<char>)>::empty());
                    }
                },
            },
        }
    }
}

/// The regular expressions applied to one field.
pub struct FieldRules {
    pub field: String,
    pub rules: Vec<CaptureRule>,
}

/// Whether `pattern` is valid in `syntax`.
pub open spec fn valid_in(syntax: Syntax, pattern: Seq<char>) -> bool {
    match syntax {
        Syntax::Rust => regex_valid(pattern),
        Syntax::Oniguruma => onig_valid(pattern),
    }
}

/// A pattern value that is a string and valid in `syntax`.
pub open spec fn pattern_test(syntax: Syntax) -> spec_fn(Spanned<Value>) -> bool {
    |v: Spanned<Value>| text_of(v) is Some && valid_in(syntax, text_of(v).unwrap())
}

/// Index of the first pattern value that is no string or no valid
/// regular expression in `syntax`.
pub open spec fn first_bad_pattern(syntax: Syntax, p: Seq<Spanned<Value>>) -> Option<int> {
    first_failing(p, pattern_test(syntax))
}

impl FieldRules {
    /// The rules for `field` from pattern values as read from
    /// configuration; an error names the span of the first pattern that is
    /// no string or no valid regular expression in `syntax`.
    pub fn from_options(field: &str, patterns: &Vec<Spanned<Value>>, syntax: Syntax) -> (r: Result<FieldRules, Error>)
        ensures
            match first_bad_pattern(syntax, patterns@) {
                Some(i) => r matches Err(e) && e.spec_id() == ErrorId::Parse && e.spec_details() is Some
                    && e.spec_details().unwrap().1 == patterns@[i].span,
                None => r matches Ok(f) && f.field@ == field@ && f.rules@.len() == patterns@.len() && forall|i: int|
                    0 <= i < patterns@.len() ==> Some((#[trigger] f.rules@[i]).spec_pattern()) == text_of(patterns@[i])
                    && f.rules@[i].spec_syntax() == syntax,
            },
    {
        let mut rules: Vec<CaptureRule> = Vec::new();
        let mut i: usize = 0;
        proof {
            assert(patterns@.subrange(0, patterns@.len() as int) =~= patterns@);
        }
        while i < patterns.len()
            invariant
                i <= patterns@.len(),
                rules@.len() == i,
                forall|j: int| 0 <= j < i ==> Some((#[trigger] rules@[j]).spec_pattern()) == text_of(patterns@[j])
                    && rules@[j].spec_syntax() == syntax,
                first_bad_pattern(syntax, patterns@) == (match first_failing(patterns@.subrange(i as int, patterns@.len() as int), pattern_test(syntax)) {
                    Some(j) => Some(j + i),
                    None => None,
                }),
            decreases patterns@.len() - i,
        {
            proof {
                lemma_first_failing_step(patterns@, pattern_test(syntax), i as int);
            }
            let v = &patterns[i];
            let t = match v.as_str() {
                Ok(t) => t,
                Err(e) => {
                    return Err(e);
                },
            };
            let rule = match syntax {
                Syntax::Rust => CaptureRule::new(t),
                Syntax::Oniguruma => CaptureRule::grok(t),
            };
            match rule {
                Some(c) => rules.push(c),
                None => {
                    return Err(Error::new(ErrorId::Parse, ErrorDetails::new("invalid regular expression".to_string(), v.span)));
                },
            }
            i = i + 1;
        }
        proof {
            assert(patterns@.subrange(i as int, patterns@.len() as int).len() == 0);
        }
        Ok(FieldRules { field: field.to_string(), rules })
    }

    /// The rules for `field`; a parse error when a pattern is not a valid
    /// regular expression.
    pub fn parse(field: &str, patterns: &Vec<String>) -> (r: Result<FieldRules, Error>)
        ensures
            r matches Err(e) ==> e.spec_id() == ErrorId::Parse,
            r is Ok <==> forall|i: int| 0 <= i < patterns@.len() ==> valid_in(Syntax::Rust, #[trigger] patterns@[i]@),
            r matches Ok(f) ==> f.field@ == field@ && f.rules@.len() == patterns@.len() && forall|i: int|
                0 <= i < patterns@.len() ==> (#[trigger] f.rules@[i]).spec_pattern() == patterns@[i]@
                && f.rules@[i].spec_syntax() == Syntax::Rust,
    {
        FieldRules::parse_in(field, patterns, Syntax::Rust)
    }

    /// Like `parse`, with patterns in Oniguruma's Ruby syntax.
    pub fn parse_grok(field: &str, patterns: &Vec<String>) -> (r: Result<FieldRules, Error>)
        ensures
            r matches Err(e) ==> e.spec_id() == ErrorId::Parse,
            r is Ok <==> forall|i: int| 0 <= i < patterns@.len() ==> valid_in(Syntax::Oniguruma, #[trigger] patterns@[i]@),
            r matches Ok(f) ==> f.field@ == field@ && f.rules@.len() == patterns@.len() && forall|i: int|
                0 <= i < patterns@.len() ==> (#[trigger] f.rules@[i]).spec_pattern() == patterns@[i]@
                && f.rules@[i].spec_syntax() == Syntax::Oniguruma,
    {
        FieldRules::parse_in(field, patterns, Syntax::Oniguruma)
    }

    fn parse_in(field: &str, patterns: &Vec<String>, syntax: Syntax) -> (r: Result<FieldRules, Error>)
        ensures
            r matches Err(e) ==> e.spec_id() == ErrorId::Parse,
            r is Ok <==> forall|i: int| 0 <= i < patterns@.len() ==> valid_in(syntax, #[trigger] patterns@[i]@),
            r matches Ok(f) ==> f.field@ == field@ && f.rules@.len() == patterns@.len() && forall|i: int|
                0 <= i < patterns@.len() ==> (#[trigger] f.rules@[i]).spec_pattern() == patterns@[i]@
                && f.rules@[i].spec_syntax() == syntax,
    {
        let mut rules: Vec<CaptureRule> = Vec::new();
        let mut i: usize = 0;
        while i < patterns.len()
            invariant
                i <= patterns@.len(),
                rules@.len() == i,
                forall|j: int| 0 <= j < i ==> (#[trigger] rules@[j]).spec_pattern() == patterns@[j]@
                    && rules@[j].spec_syntax() == syntax,
                forall|j: int| 0 <= j < i ==> valid_in(syntax, #[trigger] patterns@[j]@),
            decreases patterns@.len() - i,
        {
            let rule = match syntax {
                Syntax::Rust => CaptureRule::new(patterns[i].as_str()),
                Syntax::Oniguruma => CaptureRule::grok(patterns[i].as_str()),
            };
            match rule {
                Some(c) => rules.push(c),
                None => {
                    return Err(Error::new(ErrorId::Parse, ErrorDetails::new("invalid regular expression".to_string(), Span::none())));
                },
            }
            i = i + 1;
        }
        Ok(FieldRules { field: field.to_string(), rules })
    }
}

/// `(name, text)` of each named group among the first `n` that took part.
pub open spec fn named_pairs(names: Seq<Option<Seq<char>>>, groups: Seq<Option<Seq<char>>>, n: int) -> Seq<(Seq<char>, Seq<char>)>
    decreases n,
{
    if n <= 0 {
        seq![]
    } else {
        let before = named_pairs(names, groups, n - 1);
        match (names[n - 1], groups[n - 1]) {
            (Some(name), Some(text)) => before.push((name, text)),
            _ => before,
        }
    }
}

/// `(name, text)` for each of the first `n` named Oniguruma groups whose
/// first group number took part in the match.
pub open spec fn grok_pairs(names: Seq<(Seq<char>, Seq<u32>)>, groups: Seq<Option<Seq<char>>>, n: int) -> Seq<(Seq<char>, Seq<char>)>
    decreases n,
{
    if n <= 0 {
        seq![]
    } else {
        let before = grok_pairs(names, groups, n - 1);
        let (name, nums) = names[n - 1];
        if nums.len() > 0 && (nums[0] as int) < groups.len() {
            match groups[nums[0] as int] {
                Some(text) => before.push((name, text)),
                None => before,
            }
        } else {
            before
        }
    }
}

/// What one regular expression captures from `text`.
pub open spec fn rule_pairs(syntax: Syntax, pattern: Seq<char>, text: Seq<char>) -> Seq<(Seq<char>, Seq<char>)> {
    match syntax {
        Syntax::Rust => match regex_first_groups(pattern, text) {
            Some(groups) => {
                let names = regex_group_names(pattern);
                named_pairs(names, groups, if names.len() <= groups.len() { names.len() as int } else { groups.len() as int })
            },
            None => seq![],
        },
        Syntax::Oniguruma => match onig_search(pattern, text) {
            Some(Some(groups)) => grok_pairs(onig_names(pattern), groups, onig_names(pattern).len() as int),
            _ => seq![],
        },
    }
}

/// What a list of regular expressions captures from `text`, in order.
pub open spec fn rules_pairs(rules: Seq<(Syntax, Seq<char>)>, text: Seq<char>) -> Seq<(Seq<char>, Seq<char>)>
    decreases rules.len(),
{
    if rules.len() == 0 {
        seq![]
    } else {
        rules_pairs(rules.drop_last(), text) + rule_pairs(rules.last().0, rules.last().1, text)
    }
}

/// The text of field `f` of `e`, when it holds a string.
pub open spec fn field_text(e: Event, f: Seq<char>) -> Option<Seq<char>> {
    match e.field_spec(f) {
        Some(Value::String(s)) => Some(s@),
        _ => None,
    }
}

/// Everything the filter captures from `e`, field by field, in order.
pub open spec fn collected(config: Seq<(Seq<char>, Seq<(Syntax, Seq<char>)>)>, e: Event) -> Seq<(Seq<char>, Seq<char>)>
    decreases config.len(),
{
    if config.len() == 0 {
        seq![]
    } else {
        let c = config.last();
        collected(config.drop_last(), e) + match field_text(e, c.0) {
            Some(t) => rules_pairs(c.1, t),
            None => seq![],
        }
    }
}

/// The text captured first under `k`.
pub open spec fn first_value(pairs: Seq<(Seq<char>, Seq<char>)>, k: Seq<char>) -> Option<Seq<char>>
    decreases pairs.len(),
{
    if pairs.len() == 0 {
        None
    } else if pairs[0].0 == k {
        Some(pairs[0].1)
    } else {
        first_value(pairs.subrange(1, pairs.len() as int), k)
    }
}

proof fn lemma_first_value_push(s: Seq<(Seq<char>, Seq<char>)>, p: (Seq<char>, Seq<char>), k: Seq<char>)
    ensures
        first_value(s.push(p), k) == (if first_value(s, k) is Some { first_value(s, k) } else if p.0 == k { Some(p.1) } else { None }),
    decreases s.len(),
{
    let t = s.push(p);
    if s.len() > 0 {
        assert(t.subrange(1, t.len() as int) =~= s.subrange(1, s.len() as int).push(p));
        lemma_first_value_push(s.subrange(1, s.len() as int), p, k);
    } else {
        assert(t.subrange(1, t.len() as int) =~= Seq::<(Seq<char>, Seq<char>)>::empty());
        assert(first_value(Seq::<(Seq<char>, Seq<char>)>::empty(), k) is None);
    }
}

pub open spec fn pairs_view(v: Seq<(String, String)>) -> Seq<(Seq<char>, Seq<char>)> {
    v.map_values(|p: (String, String)| (p.0@, p.1@))
}

/// `after` is `before` with the fields that `config` captures from it set
/// where `before` lacks them.
pub open spec fn filtered(config: Seq<(Seq<char>, Seq<(Syntax, Seq<char>)>)>, before: Event, after: Event) -> bool {
    &&& forall|k: Seq<char>| #[trigger] after.tag_spec(k) == before.tag_spec(k)
    &&& forall|k: Seq<char>| before.field_spec(k) is Some ==> #[trigger] after.field_spec(k) == before.field_spec(k)
    &&& forall|k: Seq<char>| before.field_spec(k) is None ==> match first_value(collected(config, before), k) {
        Some(v) => #[trigger] after.field_spec(k) matches Some(Value::String(s)) && s@ == v,
        None => after.field_spec(k) is None,
    }
}

/// A value with its string as characters.
pub enum ValueModel {
    Bool(bool),
    Int(i64),
    Float(u64),
    Str(Seq<char>),
}

pub open spec fn value_model(v: Option<Value>) -> Option<ValueModel> {
    match v {
        Some(Value::Bool(b)) => Some(ValueModel::Bool(b)),
        Some(Value::Int(i)) => Some(ValueModel::Int(i)),
        Some(Value::Float(f)) => Some(ValueModel::Float(f)),
        Some(Value::String(s)) => Some(ValueModel::Str(s@)),
        None => None,
    }
}

/// What a filter makes of an event depends on its configuration and the
/// event alone: two filter instances of one configuration, such as those
/// of parallel workers, agree on every field and tag of every event.
pub proof fn lemma_filter_instances_agree(
    config: Seq<(Seq<char>, Seq<(Syntax, Seq<char>)>)>,
    before: Event,
    a: Event,
    b: Event,
)
    requires
        filtered(config, before, a),
        filtered(config, before, b),
    ensures
        forall|k: Seq<char>| value_model(#[trigger] a.field_spec(k)) == value_model(b.field_spec(k)),
        forall|k: Seq<char>| #[trigger] a.tag_spec(k) == b.tag_spec(k),
{
    assert forall|k: Seq<char>| value_model(#[trigger] a.field_spec(k)) == value_model(b.field_spec(k)) by {
        if before.field_spec(k) is Some {
            assert(a.field_spec(k) == before.field_spec(k));
            assert(b.field_spec(k) == before.field_spec(k));
        } else {
            match first_value(collected(config, before), k) {
                Some(v) => {
                    assert(a.field_spec(k) matches Some(Value::String(s)) && s@ == v);
                    assert(b.field_spec(k) matches Some(Value::String(s)) && s@ == v);
                },
                None => {
                    assert(a.field_spec(k) is None);
                    assert(b.field_spec(k) is None);
                },
            }
        }
    }
    assert forall|k: Seq<char>| #[trigger] a.tag_spec(k) == b.tag_spec(k) by {
        assert(a.tag_spec(k) == before.tag_spec(k));
        assert(b.tag_spec(k) == before.tag_spec(k));
    }
}

/// Sets, from named regular expression groups, event fields that are not
/// set yet.
pub struct RegexFilter {
    patterns: Vec<FieldRules>,
}

impl RegexFilter {
    pub closed spec fn config(&self) -> Seq<(Seq<char>, Seq<(Syntax, Seq<char>)>)> {
        self.patterns@.map_values(|f: FieldRules| (f.field@, f.rules@.map_values(|c: CaptureRule| (c.spec_syntax(), c.spec_pattern()))))
    }

    /// Holds capture rules of either syntax: serves the `regex` and the
    /// `grok` filters.
    pub fn new(patterns: Vec<FieldRules>) -> (r: RegexFilter)
        ensures
            r.config() == patterns@.map_values(|f: FieldRules| (f.field@, f.rules@.map_values(|c: CaptureRule| (c.spec_syntax(), c.spec_pattern())))),
    {
        RegexFilter { patterns }
    }

    /// Applies every regular expression to its field; each named group of
    /// the first match becomes a field, unless the event has that field
    /// already (the first capture of a name wins).
    pub fn filter(&self, event: &mut Event)
        ensures
            filtered(self.config(), *old(event), *final(event)),
    {
        let pairs = self.collect(event);
        apply_absent(event, &pairs);
    }

    fn collect(&self, event: &Event) -> (r: Vec<(String, String)>)
        ensures
            pairs_view(r@) == collected(self.config(), *event),
    {
        let mut out: Vec<(String, String)> = Vec::new();
        let mut i: usize = 0;
        while i < self.patterns.len()
            invariant
                i <= self.patterns@.len(),
                pairs_view(out@) == collected(self.config().subrange(0, i as int), *event),
            decreases self.patterns@.len() - i,
        {
            let ghost before = out@;
            let fr = &self.patterns[i];
            let ghost c = self.config()[i as int];
            proof {
                assert(self.config().subrange(0, i + 1).drop_last() =~= self.config().subrange(0, i as int));
                assert(self.config().subrange(0, i + 1).last() == c);
            }
            match event.field(fr.field.as_str()) {
                Some(Value::String(s)) => {
                    let text = s.as_str();
                    let mut j: usize = 0;
                    while j < fr.rules.len()
                        invariant
                            j <= fr.rules@.len(),
                            c.1 == fr.rules@.map_values(|c: CaptureRule| (c.spec_syntax(), c.spec_pattern())),
                            pairs_view(out@) == pairs_view(before) + rules_pairs(c.1.subrange(0, j as int), text@),
                        decreases fr.rules@.len() - j,
                    {
                        let rule = &fr.rules[j];
                        proof {
                            assert(c.1.subrange(0, j + 1).drop_last() =~= c.1.subrange(0, j as int));
                            assert(c.1.subrange(0, j + 1).last() == (rule.spec_syntax(), rule.spec_pattern()));
                        }
                        rule.pairs(text, &mut out);
                        j = j + 1;
                    }
                    proof {
                        assert(c.1.subrange(0, c.1.len() as int) =~= c.1);
                        assert(field_text(*event, c.0) == Some(text@));
                        assert(pairs_view(out@) =~= collected(self.config().subrange(0, i + 1), *event));
                    }
                },
                _ => {
                    proof {
                        assert(field_text(*event, c.0) is None);
                        assert(pairs_view(out@) =~= collected(self.config().subrange(0, i + 1), *event));
                    }
                },
            }
            i = i + 1;
        }
        proof {
            assert(self.config().subrange(0, self.config().len() as int) =~= self.config());
        }
        out
    }
}

/// Sets each `(name, text)` as a field unless it is set already.
fn apply_absent(event: &mut Event, pairs: &Vec<(String, String)>)
    ensures
        forall|k: Seq<char>| #[trigger] final(event).tag_spec(k) == old(event).tag_spec(k),
        forall|k: Seq<char>| old(event).field_spec(k) is Some ==> #[trigger] final(event).field_spec(k) == old(event).field_spec(k),
        forall|k: Seq<char>| old(event).field_spec(k) is None ==> match first_value(pairs_view(pairs@), k) {
            Some(v) => #[trigger] final(event).field_spec(k) matches Some(Value::String(s)) && s@ == v,
            None => final(event).field_spec(k) is None,
        },
{
    let mut i: usize = 0;
    while i < pairs.len()
        invariant
            i <= pairs@.len(),
            forall|k: Seq<char>| #[trigger] event.tag_spec(k) == old(event).tag_spec(k),
            forall|k: Seq<char>| old(event).field_spec(k) is Some ==> #[trigger] event.field_spec(k) == old(event).field_spec(k),
            forall|k: Seq<char>| old(event).field_spec(k) is None ==> match first_value(pairs_view(pairs@.subrange(0, i as int)), k) {
                Some(v) => #[trigger] event.field_spec(k) matches Some(Value::String(s)) && s@ == v,
                None => event.field_spec(k) is None,
            },
        decreases pairs@.len() - i,
    {
        let ghost before = *event;
        let ghost done = pairs_view(pairs@.subrange(0, i as int));
        let name = pairs[i].0.as_str();
        let text = pairs[i].1.as_str().to_string();
        let ghost tv = text@;
        event.set_field_if_absent(name, Value::String(text));
        proof {
            assert(pairs_view(pairs@.subrange(0, i + 1)) =~= done.push((name@, tv)));
            assert forall|k: Seq<char>| old(event).field_spec(k) is None implies match first_value(pairs_view(pairs@.subrange(0, i + 1)), k) {
                Some(v) => #[trigger] event.field_spec(k) matches Some(Value::String(s)) && s@ == v,
                None => event.field_spec(k) is None,
            } by {
                lemma_first_value_push(done, (name@, tv), k);
            }
        }
        i = i + 1;
    }
    proof {
        assert(pairs@.subrange(0, pairs@.len() as int) =~= pairs@);
    }
}

} // verus!
