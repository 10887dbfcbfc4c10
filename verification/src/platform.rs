//! The platform selection that conditions of dependency edges are evaluated against.
//!
//! `cargo metadata` emits one resolve for every platform at once, so a `cfg(windows)`-only
//! dependency is in the document on every machine. Selecting a platform narrows that to what
//! the platform activates.
//!
//! Cargo records a conditional dependency's condition verbatim, either as a `cfg(...)`
//! expression or as a bare target triple. A triple is compared literally; an expression is
//! parsed and evaluated against the target table that rustc ships, with three values: true,
//! false and unknown. What comes out unknown is kept, and so is an expression that cannot be
//! parsed, or that holds more operators in one than the parser can count: keeping an edge widens
//! a closure, and a wider closure cannot hide a `deny` finding.

use crate::source::line_end;
use crate::text::{self, has_prefix, texts, trimmed};
use cfg_expr::targets::{get_builtin_target_by_triple, TargetInfo};
use cfg_expr::{Expression, Predicate};
use vstd::prelude::*;

verus! {

/// The token that selects every platform: the default, and what `platform` is when unset.
pub const ALL: &'static str = "all";

/// The token that selects the host this process runs on.
pub const HOST: &'static str = "host";

/// Stands for `cfg_expr::targets::TargetInfo`: what rustc's built-in target table says of a target.
#[verifier::external_type_specification]
#[verifier::external_body]
pub struct ExTargetInfo(TargetInfo);

/// Stands for `cfg_expr::Expression`: a parsed `cfg(...)` expression.
#[verifier::external_type_specification]
#[verifier::external_body]
pub struct ExExpression(Expression);

/// Whether rustc's built-in target table has `triple`.
pub uninterp spec fn known_target(triple: Seq<char>) -> bool;

/// The triple that an entry of the target table is for.
pub uninterp spec fn triple_named(target: TargetInfo) -> Seq<char>;

/// `cfg_expr::targets::get_builtin_target_by_triple`: the entry that the table has for the triple,
/// if it has one.
#[verifier::external_body]
fn find_target(triple: &str) -> (found: Option<&'static TargetInfo>)
    ensures
        found is Some == known_target(triple@),
        found matches Some(target) ==> triple_named(*target) == triple@,
{
    get_builtin_target_by_triple(triple)
}

/// One predicate of a `cfg(...)` expression that is no property of the target.
pub enum CfgPredicate {
    /// `test`
    Test,
    /// `debug_assertions`
    DebugAssertions,
    /// `proc_macro`
    ProcMacro,
    /// `feature = "..."`
    Feature,
    /// `target_feature = "..."`
    TargetFeature,
    /// A bare flag.
    Flag,
    /// Any other `key = "value"`.
    KeyValue,
}

/// What a predicate is in a dependency table.
///
/// Cargo settles `test`, `proc_macro` and `feature` by rule: while it evaluates the condition of
/// a dependency, none of them is ever set. Everything else that is no property of the target it
/// settles by asking rustc, which depends on flags that are not known here.
pub open spec fn decision(predicate: CfgPredicate) -> Option<bool> {
    match predicate {
        CfgPredicate::Test | CfgPredicate::ProcMacro | CfgPredicate::Feature => Some(false),
        _ => None,
    }
}

/// Judges one predicate.
pub fn decide(predicate: CfgPredicate) -> (decided: Option<bool>)
    ensures
        decided == decision(predicate),
{
    match predicate {
        CfgPredicate::Test => Some(false),
        CfgPredicate::ProcMacro => Some(false),
        CfgPredicate::Feature => Some(false),
        CfgPredicate::DebugAssertions => None,
        CfgPredicate::TargetFeature => None,
        CfgPredicate::Flag => None,
        CfgPredicate::KeyValue => None,
    }
}

/// What each predicate that is no property of the target is taken to be.
pub struct Judgement {
    /// `test`
    pub test: Option<bool>,
    /// `debug_assertions`
    pub debug_assertions: Option<bool>,
    /// `proc_macro`
    pub proc_macro: Option<bool>,
    /// `feature = "..."`
    pub feature: Option<bool>,
    /// `target_feature = "..."`
    pub target_feature: Option<bool>,
    /// A bare flag.
    pub flag: Option<bool>,
    /// Any other `key = "value"`.
    pub key_value: Option<bool>,
}

/// The judgement that holds in a dependency table.
pub open spec fn judgement() -> Judgement {
    Judgement {
        test: decision(CfgPredicate::Test),
        debug_assertions: decision(CfgPredicate::DebugAssertions),
        proc_macro: decision(CfgPredicate::ProcMacro),
        feature: decision(CfgPredicate::Feature),
        target_feature: decision(CfgPredicate::TargetFeature),
        flag: decision(CfgPredicate::Flag),
        key_value: decision(CfgPredicate::KeyValue),
    }
}

/// Judges every predicate.
fn judge() -> (judged: Judgement)
    ensures
        judged == judgement(),
{
    Judgement {
        test: decide(CfgPredicate::Test),
        debug_assertions: decide(CfgPredicate::DebugAssertions),
        proc_macro: decide(CfgPredicate::ProcMacro),
        feature: decide(CfgPredicate::Feature),
        target_feature: decide(CfgPredicate::TargetFeature),
        flag: decide(CfgPredicate::Flag),
        key_value: decide(CfgPredicate::KeyValue),
    }
}

/// Whether `c` can stand in a word of an expression.
pub open spec fn in_word(c: char) -> bool {
    'a' <= c <= 'z' || 'A' <= c <= 'Z' || '0' <= c <= '9' || c == '_'
}

/// Whether the word `all`, `any` or `not` starts at character `at`.
pub open spec fn operator_at(text: Seq<char>, at: int) -> bool {
    &&& 0 <= at <= text.len() - 3
    &&& {
        let word = text.subrange(at, at + 3);
        word == seq!['a', 'l', 'l'] || word == seq!['a', 'n', 'y'] || word == seq!['n', 'o', 't']
    }
    &&& at == 0 || !in_word(text[at - 1])
    &&& at + 3 == text.len() || !in_word(text[at + 3])
}

/// Where a walk through an expression stands.
pub struct Nesting {
    /// Whether it stands within a quoted value.
    pub quoted: bool,
    /// How many operators were met directly within each open parenthesis, the outermost first.
    pub operators: Seq<nat>,
}

/// Where a walk stands after the first `upto` characters.
///
/// The outermost parenthesis is that of `cfg(...)`, which is no operator: what stands directly
/// within it is not counted.
pub open spec fn nesting(text: Seq<char>, upto: int) -> Nesting
    decreases upto,
{
    if upto <= 0 {
        Nesting { quoted: false, operators: Seq::empty() }
    } else {
        let before = nesting(text, upto - 1);
        let open = before.operators;
        let c = text[upto - 1];
        if c == '"' {
            Nesting { quoted: !before.quoted, operators: open }
        } else if before.quoted {
            before
        } else if c == '(' {
            Nesting { quoted: false, operators: open.push(0) }
        } else if c == ')' && open.len() > 0 {
            Nesting { quoted: false, operators: open.drop_last() }
        } else if operator_at(text, upto - 1) && open.len() > 1 {
            Nesting {
                quoted: false,
                operators: open.update(open.len() - 1, open.last() + 1),
            }
        } else {
            before
        }
    }
}

/// How many operators may stand directly within one operator.
pub const WIDEST: usize = 255;

/// Whether the walk has met no more operators than may be within the innermost parenthesis.
pub open spec fn is_narrow(walk: Nesting) -> bool {
    walk.operators.len() > 0 ==> walk.operators.last() <= WIDEST
}

/// Whether no operator of the expression holds more operators than may be within one.
pub open spec fn is_readable(text: Seq<char>) -> bool {
    forall|upto: int| 0 <= upto <= text.len() ==> is_narrow(#[trigger] nesting(text, upto))
}

fn stands_in_word(c: char) -> (within: bool)
    ensures
        within == in_word(c),
{
    ('a' <= c && c <= 'z') || ('A' <= c && c <= 'Z') || ('0' <= c && c <= '9') || c == '_'
}

fn starts_operator(text: &Vec<char>, at: usize) -> (starts: bool)
    requires
        at < text@.len(),
    ensures
        starts == operator_at(text@, at as int),
{
    if text.len() - at < 3 {
        return false;
    }
    let (a, b, c) = (text[at], text[at + 1], text[at + 2]);
    proof {
        let word = text@.subrange(at as int, at + 3);
        assert(word =~= seq![a, b, c]);
        let (all, any, not) = (seq!['a', 'l', 'l'], seq!['a', 'n', 'y'], seq!['n', 'o', 't']);
        assert(all[0] == 'a' && all[1] == 'l' && all[2] == 'l');
        assert(any[0] == 'a' && any[1] == 'n' && any[2] == 'y');
        assert(not[0] == 'n' && not[1] == 'o' && not[2] == 't');
        assert(word[0] == a && word[1] == b && word[2] == c);
        assert(word =~= all <==> a == 'a' && b == 'l' && c == 'l');
        assert(word =~= any <==> a == 'a' && b == 'n' && c == 'y');
        assert(word =~= not <==> a == 'n' && b == 'o' && c == 't');
    }
    let named = (a == 'a' && b == 'l' && c == 'l') || (a == 'a' && b == 'n' && c == 'y') || (a == 'n'
        && b == 'o' && c == 't');
    named && (at == 0 || !stands_in_word(text[at - 1])) && (text.len() - at == 3
        || !stands_in_word(text[at + 3]))
}

/// Whether no operator of the expression holds more operators than may be within one.
fn readable(expression: &str) -> (readable: bool)
    ensures
        readable == is_readable(expression@),
{
    let text = text::chars_of(expression);
    let mut quoted = false;
    let mut open: Vec<usize> = Vec::new();
    let mut at: usize = 0;
    while at < text.len()
        invariant
            text@ == expression@,
            at <= text@.len(),
            nesting(text@, at as int).quoted == quoted,
            nesting(text@, at as int).operators == open@.map_values(|count: usize| count as nat),
            forall|k: int| 0 <= k < open@.len() ==> #[trigger] open@[k] <= WIDEST,
            forall|upto: int|
                0 <= upto <= at ==> is_narrow(#[trigger] nesting(text@, upto)),
        decreases text@.len() - at,
    {
        let c = text[at];
        let ghost before = open@.map_values(|count: usize| count as nat);
        if c == '"' {
            quoted = !quoted;
        } else if quoted {
        } else if c == '(' {
            open.push(0);
            assert(open@.map_values(|count: usize| count as nat) =~= before.push(0));
        } else if c == ')' && open.len() > 0 {
            open.pop();
            assert(open@.map_values(|count: usize| count as nat) =~= before.drop_last());
        } else if open.len() > 1 && starts_operator(&text, at) {
            let last = open.len() - 1;
            let count = open[last] + 1;
            if count > WIDEST {
                assert(!is_narrow(nesting(text@, at + 1)));
                return false;
            }
            open.set(last, count);
            assert(open@.map_values(|count: usize| count as nat) =~= before.update(
                before.len() - 1,
                before.last() + 1,
            ));
        }
        at = at + 1;
    }
    true
}

/// What an expression says, taken out of `cfg(` and `)` where it stands in them.
pub open spec fn bare(text: Seq<char>) -> Seq<char> {
    if has_prefix(text, "cfg("@) && text.last() == ')' {
        text.subrange(4, text.len() - 1)
    } else {
        text
    }
}

/// Whether `text` can be parsed as an expression.
pub uninterp spec fn parses(text: Seq<char>) -> bool;

/// What a parsed expression says.
pub uninterp spec fn said(expression: Expression) -> Seq<char>;

/// `cfg_expr::Expression::parse`: the parsed expression where the text can be parsed, which keeps
/// what the text says without `cfg(` and `)`.
///
/// The parser counts in a byte how many operators stand directly within one operator, so texts
/// where more of them do are left out.
#[verifier::external_body]
fn parse(text: &str) -> (parsed: Option<Expression>)
    requires
        has_prefix(text@, "cfg("@),
        is_readable(text@),
    ensures
        parsed is Some == parses(text@),
        parsed matches Some(expression) ==> said(expression) == bare(text@),
{
    Expression::parse(text).ok()
}

/// The value of an expression on a target of the table: true, false or unknown.
pub uninterp spec fn cfg_value(
    expression: Seq<char>,
    triple: Seq<char>,
    judged: Judgement,
) -> Option<bool>;

/// `cfg_expr::Expression::eval` in three values. A property of the target is what
/// `TargetPredicate::matches` says of it, every other predicate what `judged` says. The value
/// depends on what the expression says, on the triple and on the judgement alone.
#[verifier::external_body]
fn evaluate(expression: &Expression, target: &TargetInfo, judged: &Judgement) -> (value: Option<bool>)
    ensures
        value == cfg_value(said(*expression), triple_named(*target), *judged),
{
    expression.eval(|predicate| match predicate {
        Predicate::Target(property) => Some(property.matches(target)),
        Predicate::Test => judged.test,
        Predicate::DebugAssertions => judged.debug_assertions,
        Predicate::ProcMacro => judged.proc_macro,
        Predicate::Feature(_) => judged.feature,
        Predicate::TargetFeature(_) => judged.target_feature,
        Predicate::Flag(_) => judged.flag,
        Predicate::KeyValue { .. } => judged.key_value,
    })
}

/// The value of a `cfg(...)` expression on a target: `None` when it cannot be read or the target
/// is not known, else true, false or unknown.
pub open spec fn cfg_verdict(expression: Seq<char>, triple: Seq<char>) -> Option<Option<bool>> {
    if is_readable(expression) && parses(expression) && known_target(triple) {
        Some(cfg_value(bare(expression), triple, judgement()))
    } else {
        None
    }
}

/// Whether an edge whose condition has the value `value` is kept: all but the decided false.
pub open spec fn is_kept(value: Option<Option<bool>>) -> bool {
    value != Some(Some(false))
}

/// Whether an edge whose condition has the value `value` is kept.
#[must_use]
pub fn keeps(value: Option<Option<bool>>) -> (kept: bool)
    ensures
        kept == is_kept(value),
{
    match value {
        Some(Some(false)) => false,
        _ => true,
    }
}

/// The platforms whose dependency edges a run keeps; none named is every platform.
#[derive(Clone, Debug, PartialEq, Eq)]
pub struct PlatformSelection {
    targets: Vec<String>,
}

impl View for PlatformSelection {
    type V = Seq<Seq<char>>;

    closed spec fn view(&self) -> Seq<Seq<char>> {
        texts(self.targets@)
    }
}

impl Default for PlatformSelection {
    fn default() -> (selection: PlatformSelection)
        ensures
            selection@.len() == 0,
    {
        PlatformSelection::all()
    }
}

/// A `platform` value naming something that is neither `all`, `host`, nor a target triple.
#[derive(Clone, Debug, PartialEq, Eq)]
pub struct UnknownPlatform {
    /// The position of the offending value in the list it was written in.
    pub index: usize,
    /// The value as it was written.
    pub value: String,
    /// The triple that `host` resolved to, when the value was `host`.
    pub host_triple: Option<String>,
}

/// What is said of an unknown platform.
pub open spec fn unknown_platform_text(value: Seq<char>, host: Option<Seq<char>>) -> Seq<char> {
    match host {
        Some(triple) => "`host` resolved to `"@ + triple
            + "`, which is not in rustc's built-in target table"@,
        None => "unknown target platform `"@ + value
            + "`; expected `all`, `host`, or a target triple rustc knows (see `rustc --print target-list`)"@,
    }
}

impl UnknownPlatform {
    /// Says what is wrong with the value.
    #[must_use]
    pub fn describe(&self) -> (message: String)
        ensures
            message@ == unknown_platform_text(
                self.value@,
                match self.host_triple {
                    Some(triple) => Some(triple@),
                    None => None,
                },
            ),
    {
        match &self.host_triple {
            Some(triple) => {
                let mut message = "`host` resolved to `".to_owned();
                message.push_str(triple.as_str());
                message.push_str("`, which is not in rustc's built-in target table");
                message
            },
            None => {
                let mut message = "unknown target platform `".to_owned();
                message.push_str(self.value.as_str());
                message.push_str(
                    "`; expected `all`, `host`, or a target triple rustc knows (see `rustc --print target-list`)",
                );
                message
            },
        }
    }
}

/// The triple that a token stands for.
pub open spec fn triple_of(token: Seq<char>, host: Seq<char>) -> Seq<char> {
    if token == HOST@ {
        host
    } else {
        token
    }
}

/// The first of the first `upto` tokens that selects everything or nothing that is known.
pub open spec fn first_stop(tokens: Seq<Seq<char>>, host: Seq<char>, upto: int) -> Option<int>
    decreases upto,
{
    if upto <= 0 {
        None
    } else {
        match first_stop(tokens, host, upto - 1) {
            Some(i) => Some(i),
            None => if tokens[upto - 1] == ALL@ || !known_target(triple_of(tokens[upto - 1], host)) {
                Some(upto - 1)
            } else {
                None
            },
        }
    }
}

/// What tokens select: the triples, none of them for every platform, or the place of the first
/// token that is not known.
pub open spec fn resolved(tokens: Seq<Seq<char>>, host: Seq<char>) -> Result<Seq<Seq<char>>, int> {
    match first_stop(tokens, host, tokens.len() as int) {
        Some(i) => if tokens[i] == ALL@ {
            Ok(Seq::empty())
        } else {
            Err(i)
        },
        None => Ok(distinct_triples(tokens, host, tokens.len() as int)),
    }
}

/// A stop that was found stays the first one.
proof fn stop_stays_first(tokens: Seq<Seq<char>>, host: Seq<char>, upto: int, more: int)
    requires
        upto <= more,
        first_stop(tokens, host, upto) is Some,
    ensures
        first_stop(tokens, host, more) == first_stop(tokens, host, upto),
    decreases more,
{
    if upto < more {
        stop_stays_first(tokens, host, upto, more - 1);
    }
}

/// The triples of the first `upto` tokens, each at its first place.
pub open spec fn distinct_triples(tokens: Seq<Seq<char>>, host: Seq<char>, upto: int) -> Seq<Seq<char>>
    decreases upto,
{
    if upto <= 0 {
        Seq::empty()
    } else {
        let before = distinct_triples(tokens, host, upto - 1);
        let triple = triple_of(tokens[upto - 1], host);
        if before.contains(triple) {
            before
        } else {
            before.push(triple)
        }
    }
}

/// Whether an edge conditioned on `target` is kept under `selected`.
///
/// Without a selected platform every edge is kept, unread. A value that is not a `cfg(...)`
/// expression is a literal target triple and is compared as one; an expression keeps its edge
/// when it does on at least one selected platform.
pub open spec fn is_activated(selected: Seq<Seq<char>>, target: Seq<char>) -> bool {
    if selected.len() == 0 {
        true
    } else if has_prefix(target, "cfg("@) {
        exists|i: int| 0 <= i < selected.len() && is_kept(cfg_verdict(target, #[trigger] selected[i]))
    } else {
        selected.contains(target)
    }
}

impl PlatformSelection {
    /// Every platform: the unfiltered resolve, and what a run does when nothing selects.
    #[must_use]
    pub fn all() -> (selection: PlatformSelection)
        ensures
            selection@ == Seq::<Seq<char>>::empty(),
    {
        assert(texts(Seq::<String>::empty()) =~= Seq::<Seq<char>>::empty());
        PlatformSelection { targets: Vec::new() }
    }

    /// Resolves `all`, `host` and target-triple tokens into a selection, `host` being `host`.
    ///
    /// `all` selects every platform: it is the superset of whatever stands beside it. Repeated
    /// triples collapse and first-seen order is kept, so a report can echo the selection back
    /// in the order it was written. No tokens at all select every platform; callers that must
    /// reject a written `platform = []` check for it before calling.
    ///
    /// # Errors
    ///
    /// [`UnknownPlatform`] for the first token that is neither `all`, `host`, nor a triple in
    /// rustc's built-in target table, carrying its index so the caller can anchor a diagnostic
    /// at the value that caused it.
    pub fn resolve_against_host(tokens: &Vec<String>, host: &str) -> (result: Result<
        PlatformSelection,
        UnknownPlatform,
    >)
        ensures
            match resolved(texts(tokens@), host@) {
                Ok(triples) => result is Ok && result->Ok_0@ == triples,
                Err(i) => {
                    &&& result is Err
                    &&& 0 <= i < tokens@.len()
                    &&& result->Err_0.index == i
                    &&& result->Err_0.value@ == tokens@[i]@
                    &&& result->Err_0.host_triple is Some == (tokens@[i]@ == HOST@)
                    &&& result->Err_0.host_triple is Some ==> result->Err_0.host_triple->0@ == host@
                },
            },
    {
        let ghost written = texts(tokens@);
        let mut targets: Vec<String> = Vec::new();
        let mut index: usize = 0;
        while index < tokens.len()
            invariant
                index <= tokens@.len(),
                written == texts(tokens@),
                texts(targets@) == distinct_triples(written, host@, index as int),
                first_stop(written, host@, index as int) is None,
            decreases tokens@.len() - index,
        {
            let token = tokens[index].as_str();
            assert(written[index as int] == token@);
            if text::same(token, ALL) {
                proof {
                    stop_stays_first(written, host@, index + 1, tokens@.len() as int);
                }
                return Ok(PlatformSelection::all());
            }
            let is_host = text::same(token, HOST);
            let triple = if is_host {
                host
            } else {
                token
            };
            if find_target(triple).is_none() {
                proof {
                    stop_stays_first(written, host@, index + 1, tokens@.len() as int);
                }
                let host_triple = if is_host {
                    Some(host.to_owned())
                } else {
                    None
                };
                return Err(UnknownPlatform { index, value: token.to_owned(), host_triple });
            }
            if !text::contains(&targets, triple) {
                let ghost before = texts(targets@);
                targets.push(triple.to_owned());
                assert(texts(targets@) =~= before.push(triple@));
            }
            index = index + 1;
        }
        Ok(PlatformSelection { targets })
    }

    /// Whether this selection keeps every edge — `all`, and the default.
    #[must_use]
    pub fn is_all(&self) -> (all: bool)
        ensures
            all == (self@.len() == 0),
    {
        self.targets.len() == 0
    }

    /// The selected target triples in first-seen order; empty for `all`.
    ///
    /// These are the resolved triples, so `host` reads back as the triple it resolved to and a
    /// report stays reproducible off the machine that produced it.
    #[must_use]
    pub fn triples(&self) -> (triples: &Vec<String>)
        ensures
            texts(triples@) == self@,
    {
        &self.targets
    }

    /// Whether a condition activates on at least one selected platform.
    #[must_use]
    pub fn activates(&self, target: &str) -> (active: bool)
        ensures
            active == is_activated(self@, target@),
    {
        if self.is_all() {
            return true;
        }
        if !text::starts_with(target, "cfg(") {
            return text::contains(&self.targets, target);
        }
        let parsed = if readable(target) {
            parse(target)
        } else {
            None
        };
        let Some(expression) = parsed else {
            assert(self@.len() > 0);
            assert(is_kept(cfg_verdict(target@, self@[0])));
            return true;
        };
        let judged = judge();
        let mut at: usize = 0;
        while at < self.targets.len()
            invariant
                at <= self.targets@.len(),
                has_prefix(target@, "cfg("@),
                is_readable(target@),
                parses(target@),
                said(expression) == bare(target@),
                judged == judgement(),
                forall|i: int|
                    0 <= i < at ==> !is_kept(cfg_verdict(target@, #[trigger] self@[i])),
            decreases self.targets@.len() - at,
        {
            assert(self@[at as int] == self.targets@[at as int]@);
            let value = match find_target(self.targets[at].as_str()) {
                Some(found) => Some(evaluate(&expression, found, &judged)),
                None => None,
            };
            if keeps(value) {
                return true;
            }
            at = at + 1;
        }
        false
    }
}

/// Selecting more platforms keeps no fewer edges.
pub proof fn more_platforms_keep_no_fewer_edges(
    narrow: Seq<Seq<char>>,
    wide: Seq<Seq<char>>,
    target: Seq<char>,
)
    requires
        narrow.len() > 0,
        forall|triple: Seq<char>| #[trigger] narrow.contains(triple) ==> wide.contains(triple),
        is_activated(narrow, target),
    ensures
        is_activated(wide, target),
{
    if wide.len() > 0 && has_prefix(target, "cfg("@) {
        let i = choose|i: int|
            0 <= i < narrow.len() && is_kept(cfg_verdict(target, #[trigger] narrow[i]));
        assert(narrow.contains(narrow[i]));
        let k = choose|k: int| 0 <= k < wide.len() && wide[k] == narrow[i];
        assert(is_kept(cfg_verdict(target, wide[k])));
    }
}

/// A condition that cannot be read drops no edge, whatever is selected.
pub proof fn an_unreadable_condition_keeps_its_edge(selected: Seq<Seq<char>>, target: Seq<char>)
    requires
        has_prefix(target, "cfg("@),
        !is_readable(target) || !parses(target),
    ensures
        is_activated(selected, target),
{
    if selected.len() > 0 {
        assert(is_kept(cfg_verdict(target, selected[0])));
    }
}

/// A condition whose value is unknown on some selected platform drops no edge.
pub proof fn an_unknown_condition_keeps_its_edge(
    selected: Seq<Seq<char>>,
    target: Seq<char>,
    at: int,
)
    requires
        has_prefix(target, "cfg("@),
        0 <= at < selected.len(),
        cfg_verdict(target, selected[at]) == Some(None::<bool>),
    ensures
        is_activated(selected, target),
{
    assert(is_kept(cfg_verdict(target, selected[at])));
}

/// What the first line that starts with `host: ` says, from character `at` on; lines start there.
pub open spec fn host_from(report: Seq<char>, at: int) -> Option<Seq<char>>
    decreases report.len() - at,
{
    if at < 0 || at >= report.len() {
        None
    } else {
        let end = line_end(report, at);
        let line = report.subrange(at, end);
        if has_prefix(line, "host: "@) {
            Some(trimmed(line.skip("host: "@.len() as int)))
        } else if end < at || end >= report.len() {
            None
        } else {
            host_from(report, end + 1)
        }
    }
}

/// The host that the compiler reports, if it reports one.
pub open spec fn reported_host(report: Seq<char>) -> Option<Seq<char>> {
    match host_from(report, 0) {
        Some(host) => if host.len() == 0 {
            None
        } else {
            Some(host)
        },
        None => None,
    }
}

/// The `host:` line of what `rustc -vV` prints, or `None` when it does not report one.
#[must_use]
pub fn rustc_host(report: &str) -> (host: Option<String>)
    ensures
        (match host {
            Some(host) => Some(host@),
            None => None,
        }) == reported_host(report@),
{
    let chars = text::chars_of(report);
    let mut at: usize = 0;
    while at < chars.len()
        invariant
            at <= chars@.len(),
            chars@ == report@,
            host_from(report@, 0) == host_from(report@, at as int),
        decreases chars@.len() - at,
    {
        let mut end: usize = at;
        while end < chars.len() && chars[end] != '\n'
            invariant
                at <= end <= chars@.len(),
                line_end(chars@, at as int) == line_end(chars@, end as int),
            decreases chars@.len() - end,
        {
            end = end + 1;
        }
        let line = text::string_of(&chars, at, end);
        if let Some(rest) = text::strip_prefix(line.as_str(), "host: ") {
            let host = text::trim(rest.as_str());
            if text::chars_of(host.as_str()).len() == 0 {
                return None;
            }
            return Some(host);
        }
        if end == chars.len() {
            return None;
        }
        at = end + 1;
    }
    None
}

} // verus!
