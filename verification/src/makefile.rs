//! The parsed document and its operations: parsing, variable resolution, and
//! rendering command lines back to strings.

use vstd::prelude::*;
use vstd::string::*;

use crate::grammar::{
    arg_ok, args_name, args_of_tokens, assignment_of, block_args, build_doc, build_from, classify,
    classify_token, cmd_run_len, doc_first_undeclared, empty_doc, first_undeclared_args,
    first_undeclared_cmds, header_of, lemma_first_undeclared_args_skip,
    lemma_first_undeclared_cmds_skip, lemma_first_undeclared_rules_skip, resolve_arg, resolve_args,
    resolve_cmds, resolve_rule, resolved_doc, tokens_ok, user_defined_value, ArgModel, DocModel,
    LineClass, RuleModel,
};
use crate::text::{
    find_char, find_from, is_ident_char, is_name_char, is_value_char, lemma_find_from, lines_from,
    split_lines, split_tokens, tokens_from, trim_str,
};

verus! {

/// One classified token of a command line.
#[derive(Debug)]
pub enum MakefileCommandArg {
    /// An opaque token.
    Argument(String),
    /// An option switch: a token starting with `'-'`.
    Flag(String),
    /// A variable reference `$(NAME)`; `value` holds a sentinel until the
    /// resolution pass substitutes the declared value.
    Variable { name: String, value: String },
}

/// One build rule: a target, its dependencies, and its command lines.
#[derive(Debug)]
pub struct MakefileRule {
    pub target: String,
    pub dependencies: Vec<String>,
    pub commands: Vec<Vec<MakefileCommandArg>>,
}

/// A parsed build description: declared variables, comments in document
/// order, and rules in document order.
#[derive(Debug)]
pub struct Makefile {
    variables: Vec<(String, String)>,
    comments: Vec<String>,
    rules: Vec<MakefileRule>,
}

/// The failure of a parse: a command references a variable that is neither
/// declared in the document nor the reserved `args` name.
#[derive(Debug)]
pub struct ParseError {
    pub name: String,
}

impl View for MakefileCommandArg {
    type V = ArgModel;

    open spec fn view(&self) -> ArgModel {
        match self {
            MakefileCommandArg::Argument(s) => ArgModel::Argument { text: s@ },
            MakefileCommandArg::Flag(s) => ArgModel::Flag { text: s@ },
            MakefileCommandArg::Variable { name, value } => ArgModel::Variable {
                name: name@,
                value: value@,
            },
        }
    }
}

impl DeepView for MakefileCommandArg {
    type V = ArgModel;

    open spec fn deep_view(&self) -> ArgModel {
        self.view()
    }
}

impl MakefileCommandArg {
    /// Classify one whitespace-separated command token.  `None` means the
    /// token begins like a variable reference but is not of the exact shape
    /// `$(NAME)`, which makes the enclosing rule block fail to match.
    pub fn new(token: &str) -> (r: Option<MakefileCommandArg>)
        ensures
            r.deep_view() == classify_token(token@),
    {
        let n = token.unicode_len();
        if n > 0 && token.get_char(0) == '$' {
            if n >= 4 && token.get_char(1) == '(' && token.get_char(n - 1) == ')' {
                let mut i: usize = 2;
                while i < n - 1
                    invariant
                        2 <= i <= n - 1,
                        4 <= n,
                        n == token@.len(),
                        token@[0] == '$',
                        forall|j: int| 2 <= j < i ==> is_ident_char(#[trigger] token@[j]),
                    decreases n - 1 - i,
                {
                    if !crate::text::ident_char(token.get_char(i)) {
                        proof {
                            let mid = token@.subrange(2, n - 1);
                            assert(mid[i - 2] == token@[i as int]);
                            assert(!crate::grammar::valid_ident(mid));
                        }
                        return None;
                    }
                    i += 1;
                }
                let name = token.substring_char(2, n - 1).to_owned();
                let value = "UNKNOWN".to_owned();
                let r = Some(MakefileCommandArg::Variable { name, value });
                proof {
                    reveal_strlit("UNKNOWN");
                    assert(r.unwrap()->Variable_value@ =~= crate::grammar::unknown_value());
                    let mid = token@.subrange(2, n - 1);
                    assert(forall|j: int| 0 <= j < mid.len() ==> mid[j] == token@[j + 2]);
                    assert(crate::grammar::valid_ident(mid));
                }
                r
            } else {
                None
            }
        } else if n > 0 && token.get_char(0) == '-' {
            Some(MakefileCommandArg::Flag(token.to_owned()))
        } else {
            Some(MakefileCommandArg::Argument(token.to_owned()))
        }
    }
}

/// Whether every character of `s` may appear in a variable name, and `s` is
/// nonempty.
fn check_all_ident(s: &str) -> (b: bool)
    ensures
        b == crate::grammar::valid_ident(s@),
{
    let n = s.unicode_len();
    if n == 0 {
        return false;
    }
    let mut i: usize = 0;
    while i < n
        invariant
            i <= n,
            n == s@.len(),
            forall|j: int| 0 <= j < i ==> is_ident_char(#[trigger] s@[j]),
        decreases n - i,
    {
        if !crate::text::ident_char(s.get_char(i)) {
            return false;
        }
        i += 1;
    }
    true
}

/// Whether every character of `s` may appear in a target or dependency, and
/// `s` is nonempty.
fn check_all_name(s: &str) -> (b: bool)
    ensures
        b == crate::grammar::valid_name(s@),
{
    let n = s.unicode_len();
    if n == 0 {
        return false;
    }
    let mut i: usize = 0;
    while i < n
        invariant
            i <= n,
            n == s@.len(),
            forall|j: int| 0 <= j < i ==> is_name_char(#[trigger] s@[j]),
        decreases n - i,
    {
        if !crate::text::name_char(s.get_char(i)) {
            return false;
        }
        i += 1;
    }
    true
}

/// Whether every character of `s` may appear in an assigned value, and `s` is
/// nonempty.
fn check_all_value(s: &str) -> (b: bool)
    ensures
        b == crate::grammar::valid_value(s@),
{
    let n = s.unicode_len();
    if n == 0 {
        return false;
    }
    let mut i: usize = 0;
    while i < n
        invariant
            i <= n,
            n == s@.len(),
            forall|j: int| 0 <= j < i ==> is_value_char(#[trigger] s@[j]),
        decreases n - i,
    {
        if !crate::text::value_char(s.get_char(i)) {
            return false;
        }
        i += 1;
    }
    true
}

/// Tokenize the command line `line` (whose first character is the indent
/// marker) into classified arguments; `None` when some token is malformed.
fn tokenize_command(line: &str) -> (r: Option<Vec<MakefileCommandArg>>)
    requires
        line@.len() >= 1,
    ensures
        match r {
            Some(args) => tokens_ok(tokens_from(line@, 1)) && args.deep_view() == args_of_tokens(
                tokens_from(line@, 1),
            ),
            None => !tokens_ok(tokens_from(line@, 1)),
        },
{
    let ghost ts = tokens_from(line@, 1);
    let toks = split_tokens(line, 1);
    let mut args: Vec<MakefileCommandArg> = Vec::new();
    let n = toks.len();
    let mut i: usize = 0;
    while i < n
        invariant
            i <= n,
            n == toks@.len(),
            toks.deep_view() == ts,
            ts == tokens_from(line@, 1),
            forall|j: int| 0 <= j < i ==> (#[trigger] classify_token(ts[j])) is Some,
            args.deep_view().len() == i as int,
            forall|j: int|
                0 <= j < i ==> #[trigger] args.deep_view()[j] == classify_token(ts[j]).unwrap(),
        decreases n - i,
    {
        proof {
            assert(toks.deep_view()[i as int] == toks@[i as int]@);
        }
        match MakefileCommandArg::new(toks[i].as_str()) {
            None => {
                proof {
                    assert(classify_token(ts[i as int]) is None);
                }
                return None;
            },
            Some(a) => {
                let ghost prev = args.deep_view();
                args.push(a);
                proof {
                    assert(args.deep_view() =~= prev.push(a@));
                }
            },
        }
        i += 1;
    }
    proof {
        assert(tokens_ok(ts));
        assert(args.deep_view() =~= args_of_tokens(ts));
    }
    Some(args)
}

/// Parse `line` as a variable assignment `NAME = VALUE`, if it is one.
fn parse_assignment(line: &str) -> (r: Option<(String, String)>)
    ensures
        match r {
            Some(nv) => assignment_of(line@) == Some((nv.0@, nv.1@)),
            None => assignment_of(line@) is None,
        },
{
    let k = match find_char(line, 0, '=') {
        None => {
            return None;
        },
        Some(k) => k,
    };
    proof {
        lemma_find_from(line@, 0, '=');
    }
    let n = line.unicode_len();
    let name = trim_str(line.substring_char(0, k));
    let value = trim_str(line.substring_char(k + 1, n));
    if !check_all_ident(name.as_str()) {
        return None;
    }
    if !check_all_value(value.as_str()) {
        return None;
    }
    Some((name, value))
}

/// Parse `line` as a rule header `TARGET: DEP DEP ...`, if it is one.
fn parse_header(line: &str) -> (r: Option<(String, Vec<String>)>)
    ensures
        match r {
            Some(td) => header_of(line@) == Some((td.0@, td.1.deep_view())),
            None => header_of(line@) is None,
        },
{
    let k = match find_char(line, 0, ':') {
        None => {
            return None;
        },
        Some(k) => k,
    };
    proof {
        lemma_find_from(line@, 0, ':');
    }
    let n = line.unicode_len();
    assert(k < n);
    let target = trim_str(line.substring_char(0, k));
    if !check_all_name(target.as_str()) {
        return None;
    }
    let ghost ds = tokens_from(line@, k + 1);
    let deps = split_tokens(line, k + 1);
    let n = deps.len();
    let mut i: usize = 0;
    while i < n
        invariant
            i <= n,
            n == deps@.len(),
            deps.deep_view() == ds,
            ds == tokens_from(line@, k as int + 1),
            find_from(line@, 0, ':') == Some(k as int),
            forall|j: int| 0 <= j < i ==> crate::grammar::valid_name(#[trigger] ds[j]),
        decreases n - i,
    {
        proof {
            assert(deps.deep_view()[i as int] == deps@[i as int]@);
        }
        if !check_all_name(deps[i].as_str()) {
            proof {
                assert(ds.len() == deps@.len());
                assert(!crate::grammar::valid_name(ds[i as int]));
                assert(!(forall|j: int|
                    0 <= j < ds.len() ==> crate::grammar::valid_name(#[trigger] ds[j]))) by {
                    assert(0 <= (i as int) < ds.len() && !crate::grammar::valid_name(ds[i as int]));
                }
                assert(find_from(line@, 0, ':') == Some(k as int));
                assert(tokens_from(line@, k as int + 1) == ds);
                assert(header_of(line@) is None);
            }
            return None;
        }
        i += 1;
    }
    Some((target, deps))
}

/// The class of one line, carrying its extracted parts.
enum ExecLineClass {
    Blank,
    Comment(String),
    Assignment(String, String),
    Header(String, Vec<String>),
    Command(Option<Vec<MakefileCommandArg>>),
    Junk,
}

impl View for ExecLineClass {
    type V = LineClass;

    closed spec fn view(&self) -> LineClass {
        match self {
            ExecLineClass::Blank => LineClass::Blank,
            ExecLineClass::Comment(t) => LineClass::Comment { text: t@ },
            ExecLineClass::Assignment(n, v) => LineClass::Assignment { name: n@, value: v@ },
            ExecLineClass::Header(t, d) => LineClass::Header { target: t@, deps: d.deep_view() },
            ExecLineClass::Command(o) => LineClass::Command { args: o.deep_view() },
            ExecLineClass::Junk => LineClass::Junk,
        }
    }
}

/// Classify one line of the document.
fn classify_line(line: &str) -> (c: ExecLineClass)
    ensures
        c@ == classify(line@),
{
    let t = trim_str(line);
    let tn = t.as_str().unicode_len();
    if tn == 0 {
        return ExecLineClass::Blank;
    }
    if t.as_str().get_char(0) == '#' {
        return ExecLineClass::Comment(t);
    }
    match parse_assignment(line) {
        Some(nv) => {
            return ExecLineClass::Assignment(nv.0, nv.1);
        },
        None => {},
    }
    match parse_header(line) {
        Some(td) => {
            return ExecLineClass::Header(td.0, td.1);
        },
        None => {},
    }
    let n = line.unicode_len();
    if n > 0 && line.get_char(0) == '\t' {
        proof {
            assert(line@[0] == crate::text::cmd_marker());
        }
        let toks = tokenize_command(line);
        return ExecLineClass::Command(toks);
    }
    ExecLineClass::Junk
}

impl MakefileRule {
    /// Render each command line back to a single string.  With
    /// `substitute_variables` every variable reference renders as its carried
    /// value; without it, as its original `$(NAME)` form.
    pub fn commands_to_strings(&self, substitute_variables: bool) -> (r: Vec<String>)
        ensures
            r.deep_view().len() == self@.commands.len(),
            forall|i: int|
                0 <= i < self@.commands.len() ==> #[trigger] r.deep_view()[i]
                    == crate::grammar::render_cmd(self@.commands[i], substitute_variables),
    {
        let mut r: Vec<String> = Vec::new();
        let n = self.commands.len();
        let mut i: usize = 0;
        while i < n
            invariant
                i <= n,
                n == self.commands@.len(),
                r.deep_view().len() == i as int,
                forall|j: int|
                    0 <= j < i ==> #[trigger] r.deep_view()[j] == crate::grammar::render_cmd(
                        self.commands.deep_view()[j],
                        substitute_variables,
                    ),
            decreases n - i,
        {
            proof {
                assert(self.commands.deep_view()[i as int] == self.commands@[i as int].deep_view());
            }
            let ghost prev = r.deep_view();
            let line = render_command(&self.commands[i], substitute_variables);
            let ghost linev = line@;
            r.push(line);
            proof {
                assert(r.deep_view() =~= prev.push(linev));
            }
            i += 1;
        }
        r
    }
}

impl ParseError {
    /// The human-readable description of the failure, naming the offending
    /// variable.
    pub fn message(&self) -> (r: String)
        ensures
            r@ == crate::grammar::error_message_of(self.name@),
    {
        let mut r = "Undeclared variable `".to_owned();
        r.append(self.name.as_str());
        r.append("`");
        proof {
            reveal_strlit("Undeclared variable `");
            reveal_strlit("`");
            assert(r@ =~= crate::grammar::error_message_of(self.name@));
        }
        r
    }
}

impl View for MakefileRule {
    type V = RuleModel;

    open spec fn view(&self) -> RuleModel {
        RuleModel {
            target: self.target@,
            deps: self.dependencies.deep_view(),
            commands: self.commands.deep_view(),
        }
    }
}

impl DeepView for MakefileRule {
    type V = RuleModel;

    open spec fn deep_view(&self) -> RuleModel {
        self.view()
    }
}

/// The views of an association list's entries.
pub open spec fn vars_view(ps: Seq<(String, String)>) -> Seq<(Seq<char>, Seq<char>)> {
    Seq::new(ps.len(), |i: int| (ps[i].0@, ps[i].1@))
}

/// The mapping an association list denotes; a later entry for the same key
/// overrides an earlier one.
pub open spec fn pairs_to_map(ps: Seq<(Seq<char>, Seq<char>)>) -> Map<Seq<char>, Seq<char>>
    decreases ps.len(),
{
    if ps.len() == 0 {
        Map::empty()
    } else {
        pairs_to_map(ps.drop_last()).insert(ps.last().0, ps.last().1)
    }
}

/// No two entries share a key.
pub open spec fn keys_unique(ps: Seq<(Seq<char>, Seq<char>)>) -> bool {
    forall|i: int, j: int| 0 <= i < j < ps.len() ==> (#[trigger] ps[i]).0 != (#[trigger] ps[j]).0
}

pub proof fn lemma_pairs_to_map_absent(ps: Seq<(Seq<char>, Seq<char>)>, n: Seq<char>)
    requires
        forall|i: int| 0 <= i < ps.len() ==> (#[trigger] ps[i]).0 != n,
    ensures
        !pairs_to_map(ps).contains_key(n),
    decreases ps.len(),
{
    if ps.len() > 0 {
        lemma_pairs_to_map_absent(ps.drop_last(), n);
    }
}

pub proof fn lemma_pairs_to_map_get(ps: Seq<(Seq<char>, Seq<char>)>, n: Seq<char>, i: int)
    requires
        keys_unique(ps),
        0 <= i < ps.len(),
        ps[i].0 == n,
    ensures
        pairs_to_map(ps).contains_key(n),
        pairs_to_map(ps)[n] == ps[i].1,
    decreases ps.len(),
{
    if i == ps.len() - 1 {
    } else {
        assert(ps.drop_last()[i] == ps[i]);
        lemma_pairs_to_map_get(ps.drop_last(), n, i);
        assert(ps.last().0 != n);
    }
}

/// Removing the unique entry for a key removes that key from the mapping.
pub proof fn lemma_pairs_to_map_remove(ps: Seq<(Seq<char>, Seq<char>)>, n: Seq<char>, i: int)
    requires
        keys_unique(ps),
        0 <= i < ps.len(),
        ps[i].0 == n,
    ensures
        pairs_to_map(ps.remove(i)) =~= pairs_to_map(ps).remove(n),
    decreases ps.len(),
{
    if i == ps.len() - 1 {
        assert(ps.remove(i) =~= ps.drop_last());
        assert forall|k: int| 0 <= k < ps.drop_last().len() implies (#[trigger] ps.drop_last()[k]).0
            != n by {
            assert(ps.drop_last()[k] == ps[k]);
        }
        lemma_pairs_to_map_absent(ps.drop_last(), n);
        assert(pairs_to_map(ps) == pairs_to_map(ps.drop_last()).insert(n, ps[i].1));
        assert(pairs_to_map(ps).remove(n) =~= pairs_to_map(ps.drop_last()));
    } else {
        let last = ps.last();
        assert(ps.drop_last()[i] == ps[i]);
        assert(keys_unique(ps.drop_last())) by {
            assert(forall|a: int, b: int|
                0 <= a < b < ps.drop_last().len() ==> (#[trigger] ps.drop_last()[a]).0 != (
                #[trigger] ps.drop_last()[b]).0) by {
                assert(forall|a: int|
                    0 <= a < ps.drop_last().len() ==> #[trigger] ps.drop_last()[a] == ps[a]);
            }
        }
        lemma_pairs_to_map_remove(ps.drop_last(), n, i);
        assert(ps.remove(i).drop_last() =~= ps.drop_last().remove(i));
        assert(ps.remove(i).last() == last);
        assert(last.0 != n);
        assert(pairs_to_map(ps.remove(i)) == pairs_to_map(ps.drop_last().remove(i)).insert(
            last.0,
            last.1,
        ));
        assert(pairs_to_map(ps.remove(i)) =~= pairs_to_map(ps).remove(n));
    }
}

/// One token rendered back to text: with substitution enabled a variable
/// reference renders as its carried value, otherwise as `$(NAME)`.
fn render_arg_exec(a: &MakefileCommandArg, subst: bool) -> (r: String)
    ensures
        r@ == crate::grammar::render_arg(a@, subst),
{
    match a {
        MakefileCommandArg::Argument(s) => s.clone(),
        MakefileCommandArg::Flag(s) => s.clone(),
        MakefileCommandArg::Variable { name, value } => {
            if subst {
                value.clone()
            } else {
                let mut r = "$(".to_owned();
                r.append(name.as_str());
                r.append(")");
                proof {
                    reveal_strlit("$(");
                    reveal_strlit(")");
                    assert(r@ =~= seq!['$', '('] + name@ + seq![')']);
                }
                r
            }
        },
    }
}

/// One command line rendered back to text: every token followed by a blank,
/// then trimmed.
fn render_command(args: &Vec<MakefileCommandArg>, subst: bool) -> (r: String)
    ensures
        r@ == crate::grammar::render_cmd(args.deep_view(), subst),
{
    let ghost av = args.deep_view();
    let mut s = String::new();
    let n = args.len();
    let mut i: usize = 0;
    while i < n
        invariant
            i <= n,
            n == args@.len(),
            av == args.deep_view(),
            s@ + crate::grammar::render_cmd_raw(av, subst, i as int)
                == crate::grammar::render_cmd_raw(av, subst, 0),
        decreases n - i,
    {
        proof {
            assert(args.deep_view()[i as int] == args@[i as int]@);
        }
        let piece = render_arg_exec(&args[i], subst);
        s.append(piece.as_str());
        s.append(" ");
        proof {
            reveal_strlit(" ");
            assert(" "@ =~= seq![' ']);
            assert(s@ + crate::grammar::render_cmd_raw(av, subst, i as int + 1)
                =~= crate::grammar::render_cmd_raw(av, subst, 0));
        }
        i += 1;
    }
    proof {
        assert(s@ =~= crate::grammar::render_cmd_raw(av, subst, 0));
    }
    trim_str(s.as_str())
}

/// Whether the line is of command class: indented and not matched by an
/// earlier alternative.
fn is_cmd_line(line: &str) -> (b: bool)
    ensures
        b == (classify(line@) is Command),
{
    match classify_line(line) {
        ExecLineClass::Command(_) => true,
        _ => false,
    }
}

/// Whether the line matches no alternative of the grammar.
fn is_junk_line(line: &str) -> (b: bool)
    ensures
        b == (classify(line@) is Junk),
{
    match classify_line(line) {
        ExecLineClass::Junk => true,
        _ => false,
    }
}

/// The tokenization of a command-class line, or `None` for any other class.
fn command_class_of(line: &str) -> (r: Option<Option<Vec<MakefileCommandArg>>>)
    ensures
        match r {
            Some(o) => classify(line@) == (LineClass::Command { args: o.deep_view() }),
            None => !(classify(line@) is Command),
        },
{
    match classify_line(line) {
        ExecLineClass::Command(o) => Some(o),
        _ => None,
    }
}

/// A copy of a vector of strings.
fn clone_strings(v: &Vec<String>) -> (r: Vec<String>)
    ensures
        r.deep_view() == v.deep_view(),
{
    let mut r: Vec<String> = Vec::new();
    let n = v.len();
    let mut i: usize = 0;
    while i < n
        invariant
            i <= n,
            n == v@.len(),
            r.deep_view().len() == i as int,
            forall|j: int| 0 <= j < i ==> #[trigger] r.deep_view()[j] == v.deep_view()[j],
        decreases n - i,
    {
        let ghost prev = r.deep_view();
        r.push(v[i].clone());
        proof {
            assert(r.deep_view() =~= prev.push(v@[i as int]@));
        }
        i += 1;
    }
    proof {
        assert(r.deep_view() =~= v.deep_view());
    }
    r
}

impl View for Makefile {
    type V = DocModel;

    closed spec fn view(&self) -> DocModel {
        DocModel {
            vars: pairs_to_map(vars_view(self.variables@)),
            comments: self.comments.deep_view(),
            rules: self.rules.deep_view(),
        }
    }
}

impl Makefile {
    /// The association list of declared variables has no duplicate keys.
    pub closed spec fn wf(&self) -> bool {
        keys_unique(vars_view(self.variables@))
    }

    /// An empty document.
    pub fn new() -> (r: Makefile)
        ensures
            r.wf(),
            r@ == crate::grammar::empty_doc(),
    {
        let r = Makefile { variables: Vec::new(), comments: Vec::new(), rules: Vec::new() };
        proof {
            assert(vars_view(r.variables@) =~= Seq::<(Seq<char>, Seq<char>)>::empty());
            assert(r.comments.deep_view() =~= Seq::<Seq<char>>::empty());
            assert(r.rules.deep_view() =~= Seq::<RuleModel>::empty());
            assert(r@ =~= crate::grammar::empty_doc());
        }
        r
    }

    /// Read access to the declared variables, as name/value pairs.
    pub fn get_variables(&self) -> (r: &Vec<(String, String)>)
        ensures
            pairs_to_map(vars_view(r@)) == self@.vars,
            self.wf() ==> keys_unique(vars_view(r@)),
    {
        &self.variables
    }

    /// Read access to the comments, in document order.
    pub fn get_comments(&self) -> (r: &Vec<String>)
        ensures
            r.deep_view() == self@.comments,
    {
        &self.comments
    }

    /// Read access to the rules, in document order.
    pub fn get_rules(&self) -> (r: &Vec<MakefileRule>)
        ensures
            r.deep_view() == self@.rules,
    {
        &self.rules
    }

    /// The declared value of `name`, if any.
    pub fn get_variable(&self, name: &str) -> (r: Option<&String>)
        requires
            self.wf(),
        ensures
            match r {
                Some(v) => self@.vars.contains_key(name@) && v@ == self@.vars[name@],
                None => !self@.vars.contains_key(name@),
            },
    {
        let ghost ps = vars_view(self.variables@);
        let n = self.variables.len();
        let mut i: usize = 0;
        while i < n
            invariant
                i <= n,
                n == self.variables@.len(),
                self.wf(),
                ps == vars_view(self.variables@),
                forall|j: int| 0 <= j < i ==> (#[trigger] ps[j]).0 != name@,
            decreases n - i,
        {
            if crate::text::str_eq(self.variables[i].0.as_str(), name) {
                proof {
                    assert(ps[i as int].0 == name@);
                    lemma_pairs_to_map_get(ps, name@, i as int);
                }
                return Some(&self.variables[i].1);
            }
            proof {
                assert(ps[i as int].0 == self.variables@[i as int].0@);
            }
            i += 1;
        }
        proof {
            lemma_pairs_to_map_absent(ps, name@);
        }
        None
    }

    /// Record a declaration, silently overwriting any earlier one for the
    /// same name.
    pub(crate) fn insert_var(&mut self, name: String, value: String)
        requires
            old(self).wf(),
        ensures
            final(self).wf(),
            final(self)@ == (DocModel {
                vars: old(self)@.vars.insert(name@, value@),
                ..old(self)@
            }),
    {
        let ghost ps0 = vars_view(self.variables@);
        let n = self.variables.len();
        let mut i: usize = 0;
        let mut found: bool = false;
        while i < n && !found
            invariant
                i <= n,
                n == self.variables@.len(),
                !found ==> forall|j: int| 0 <= j < i ==> (#[trigger] ps0[j]).0 != name@,
                found ==> i < n && ps0[i as int].0 == name@,
                ps0 == vars_view(self.variables@),
                self.wf(),
            decreases n - i + (if found { 0int } else { 1int }),
        {
            if crate::text::str_eq(self.variables[i].0.as_str(), name.as_str()) {
                found = true;
            } else {
                proof {
                    assert(ps0[i as int].0 == self.variables@[i as int].0@);
                }
                i += 1;
            }
        }
        if found {
            proof {
                lemma_pairs_to_map_remove(ps0, name@, i as int);
            }
            self.variables.remove(i);
            proof {
                assert(vars_view(self.variables@) =~= ps0.remove(i as int));
            }
        } else {
            proof {
                lemma_pairs_to_map_absent(ps0, name@);
                assert(pairs_to_map(ps0).remove(name@) =~= pairs_to_map(ps0));
            }
        }
        let ghost ps1 = vars_view(self.variables@);
        proof {
            assert(pairs_to_map(ps1) =~= pairs_to_map(ps0).remove(name@));
            assert(forall|j: int| 0 <= j < ps1.len() ==> (#[trigger] ps1[j]).0 != name@);
        }
        self.variables.push((name, value));
        proof {
            assert(vars_view(self.variables@) =~= ps1.push((name@, value@)));
            assert(vars_view(self.variables@).drop_last() =~= ps1);
            assert(pairs_to_map(vars_view(self.variables@)) =~= pairs_to_map(ps0).insert(
                name@,
                value@,
            ));
            assert(final(self)@ =~= (DocModel {
                vars: old(self)@.vars.insert(name@, value@),
                ..old(self)@
            }));
        }
    }

    /// Record a comment, in document order.
    pub(crate) fn push_comment(&mut self, t: String)
        requires
            old(self).wf(),
        ensures
            final(self).wf(),
            final(self)@ == (DocModel { comments: old(self)@.comments.push(t@), ..old(self)@ }),
    {
        let ghost tv = t@;
        self.comments.push(t);
        proof {
            assert(self.comments.deep_view() =~= old(self).comments.deep_view().push(tv));
            assert(final(self)@ =~= (DocModel {
                comments: old(self)@.comments.push(tv),
                ..old(self)@
            }));
        }
    }

    /// Record a rule, in document order.
    pub(crate) fn push_rule(&mut self, r: MakefileRule)
        requires
            old(self).wf(),
        ensures
            final(self).wf(),
            final(self)@ == (DocModel { rules: old(self)@.rules.push(r@), ..old(self)@ }),
    {
        let ghost rv = r@;
        self.rules.push(r);
        proof {
            assert(self.rules.deep_view() =~= old(self).rules.deep_view().push(rv));
            assert(final(self)@ =~= (DocModel { rules: old(self)@.rules.push(rv), ..old(self)@ }));
        }
    }

    /// Parse raw text into a document, then resolve every variable reference.
    ///
    /// The grammar is permissive: a line or rule block that matches no
    /// alternative is dropped silently.  The resolution pass is
    /// all-or-nothing: the first reference (in document order) to a name that
    /// is neither declared nor the reserved `args` makes the whole parse
    /// fail, and no document is returned.
    #[verifier::loop_isolation(false)]
    pub fn parse(input: &str) -> (r: Result<Makefile, ParseError>)
        ensures
            match r {
                Ok(m) => m.wf() && doc_first_undeclared(build_doc(input@)) is None && m@
                    == resolved_doc(build_doc(input@)),
                Err(e) => doc_first_undeclared(build_doc(input@)) == Some(e.name@),
            },
    {
        let ghost lv = lines_from(input@, 0);
        let lines = split_lines(input);
        let mut mf = Makefile::new();
        let n = lines.len();
        let mut i: usize = 0;
        while i < n
            invariant
                i <= n,
                mf.wf(),
                build_from(mf@, lv, i as int) == build_from(empty_doc(), lv, 0),
            decreases n - i,
        {
            let ghost acc0 = mf@;
            proof {
                assert(lines.deep_view()[i as int] == lines@[i as int]@);
            }
            let cls = classify_line(lines[i].as_str());
            match cls {
                ExecLineClass::Blank => {
                    i += 1;
                },
                ExecLineClass::Junk => {
                    i += 1;
                },
                ExecLineClass::Command(_) => {
                    i += 1;
                },
                ExecLineClass::Comment(t) => {
                    mf.push_comment(t);
                    proof {
                        assert(build_from(acc0, lv, i as int) == build_from(
                            mf@,
                            lv,
                            i as int + 1,
                        ));
                    }
                    i += 1;
                },
                ExecLineClass::Assignment(nm, v) => {
                    mf.insert_var(nm, v);
                    proof {
                        assert(build_from(acc0, lv, i as int) == build_from(
                            mf@,
                            lv,
                            i as int + 1,
                        ));
                    }
                    i += 1;
                },
                ExecLineClass::Header(tg, dp) => {
                    let ghost tgv = tg@;
                    let ghost dpv = dp.deep_view();
                    // The run of command-class lines after the header.
                    let mut j = i + 1;
                    while j < n && is_cmd_line(lines[j].as_str())
                        invariant
                            i + 1 <= j <= n,
                            forall|m: int| i + 1 <= m < j ==> classify(#[trigger] lv[m]) is Command,
                            cmd_run_len(lv, i as int + 1) == (j - i - 1) + cmd_run_len(
                                lv,
                                j as int,
                            ),
                        decreases n - j,
                    {
                        proof {
                            assert(lines.deep_view()[j as int] == lines@[j as int]@);
                        }
                        j += 1;
                    }
                    proof {
                        if j < n {
                            assert(lines.deep_view()[j as int] == lines@[j as int]@);
                            assert(!(classify(lv[j as int]) is Command));
                        }
                        assert(cmd_run_len(lv, j as int) == 0);
                        assert(cmd_run_len(lv, i as int + 1) == (j - i - 1) as nat);
                    }
                    // Tokenize each command line of the block.
                    let mut cmds: Vec<Vec<MakefileCommandArg>> = Vec::new();
                    let mut ok: bool = true;
                    let mut m = i + 1;
                    while m < j
                        invariant
                            i + 1 <= m <= j,
                            block_args(lv, i as int + 1, (m - i - 1) as nat) == (if ok {
                                Some(cmds.deep_view())
                            } else {
                                None::<Seq<Seq<ArgModel>>>
                            }),
                        decreases j - m,
                    {
                        proof {
                            assert(lines.deep_view()[m as int] == lines@[m as int]@);
                        }
                        let ghost q = (m - i - 1) as nat;
                        match command_class_of(lines[m].as_str()) {
                            Some(o) => {
                                match o {
                                    Some(args) => {
                                        let ghost av = args.deep_view();
                                        if ok {
                                            let ghost prev = cmds.deep_view();
                                            cmds.push(args);
                                            proof {
                                                assert(cmds.deep_view() =~= prev.push(av));
                                            }
                                        }
                                    },
                                    None => {
                                        ok = false;
                                    },
                                }
                            },
                            None => {
                                proof {
                                    assert(false);
                                }
                            },
                        }
                        m += 1;
                        proof {
                            assert(block_args(lv, i as int + 1, (m - i - 1) as nat)
                                == (if ok {
                                Some(cmds.deep_view())
                            } else {
                                None::<Seq<Seq<ArgModel>>>
                            }));
                        }
                    }
                    // Decide whether the block stands or is dropped.
                    let mut skip: bool = false;
                    if !ok {
                        skip = true;
                    } else if j == i + 1 && j < n {
                        proof {
                            assert(lines.deep_view()[j as int] == lines@[j as int]@);
                        }
                        if is_junk_line(lines[j].as_str()) {
                            skip = true;
                        }
                    }
                    if !skip {
                        let rule = MakefileRule { target: tg, dependencies: dp, commands: cmds };
                        proof {
                            assert(rule@ == (RuleModel {
                                target: tgv,
                                deps: dpv,
                                commands: rule.commands.deep_view(),
                            }));
                        }
                        mf.push_rule(rule);
                    }
                    proof {
                        assert(classify(lv[i as int]) == (LineClass::Header {
                            target: tgv,
                            deps: dpv,
                        }));
                        assert(build_from(acc0, lv, i as int) == build_from(mf@, lv, j as int));
                    }
                    i = j;
                },
            }
        }
        proof {
            assert(build_from(mf@, lv, n as int) == mf@);
            assert(mf@ == build_doc(input@));
        }
        match mf.fill_variables() {
            Ok(_) => Ok(mf),
            Err(e) => Err(e),
        }
    }

    /// Resolve every variable reference in every command against the declared
    /// variables, in document order.  A reference to the reserved `args` name
    /// takes a fixed placeholder value.  The pass is all-or-nothing: on the
    /// first reference to an undeclared name it fails, names that variable,
    /// and leaves the document unchanged.
    #[verifier::loop_isolation(false)]
    pub fn fill_variables(&mut self) -> (r: Result<(), ParseError>)
        requires
            old(self).wf(),
        ensures
            final(self).wf(),
            match r {
                Ok(_) => doc_first_undeclared(old(self)@) is None && final(self)@ == resolved_doc(
                    old(self)@,
                ),
                Err(e) => doc_first_undeclared(old(self)@) == Some(e.name@) && final(self)@ == old(
                    self,
                )@,
            },
    {
        let ghost vars = self@.vars;
        let ghost rl = self@.rules;
        let mut new_rules: Vec<MakefileRule> = Vec::new();
        let nr = self.rules.len();
        let mut k: usize = 0;
        while k < nr
            invariant
                k <= nr,
                forall|x: int|
                    0 <= x < k ==> first_undeclared_cmds(vars, (#[trigger] rl[x]).commands, 0)
                        is None,
                new_rules.deep_view().len() == k as int,
                forall|x: int|
                    0 <= x < k ==> #[trigger] new_rules.deep_view()[x] == resolve_rule(
                        vars,
                        rl[x],
                    ),
            decreases nr - k,
        {
            proof {
                assert(self.rules.deep_view()[k as int] == self.rules@[k as int]@);
            }
            let ghost cmdseq = rl[k as int].commands;
            let nc = self.rules[k].commands.len();
            let mut new_cmds: Vec<Vec<MakefileCommandArg>> = Vec::new();
            let mut c: usize = 0;
            while c < nc
                invariant
                    c <= nc,
                    forall|y: int|
                        0 <= y < c ==> first_undeclared_args(vars, #[trigger] cmdseq[y], 0)
                            is None,
                    new_cmds.deep_view().len() == c as int,
                    forall|y: int|
                        0 <= y < c ==> #[trigger] new_cmds.deep_view()[y] == resolve_args(
                            vars,
                            cmdseq[y],
                        ),
                decreases nc - c,
            {
                proof {
                    assert(self.rules[k as int].commands.deep_view()[c as int]
                        == self.rules@[k as int].commands@[c as int].deep_view());
                }
                let ghost argseq = cmdseq[c as int];
                let na = self.rules[k].commands[c].len();
                let mut new_args: Vec<MakefileCommandArg> = Vec::new();
                let mut a: usize = 0;
                while a < na
                    invariant
                        a <= na,
                        forall|z: int| 0 <= z < a ==> arg_ok(vars, #[trigger] argseq[z]),
                        new_args.deep_view().len() == a as int,
                        forall|z: int|
                            0 <= z < a ==> #[trigger] new_args.deep_view()[z] == resolve_arg(
                                vars,
                                argseq[z],
                            ),
                    decreases na - a,
                {
                    proof {
                        assert(self.rules[k as int].commands[c as int].deep_view()[a as int]
                            == self.rules@[k as int].commands@[c as int]@[a as int]@);
                    }
                    let new_arg = match &self.rules[k].commands[c][a] {
                        MakefileCommandArg::Argument(s) => MakefileCommandArg::Argument(s.clone()),
                        MakefileCommandArg::Flag(s) => MakefileCommandArg::Flag(s.clone()),
                        MakefileCommandArg::Variable { name, value: _ } => {
                            if crate::text::str_eq(name.as_str(), "args") {
                                let v = "USER_DEFINED".to_owned();
                                proof {
                                    reveal_strlit("args");
                                    reveal_strlit("USER_DEFINED");
                                    assert(name@ =~= args_name());
                                    assert(v@ =~= user_defined_value());
                                }
                                MakefileCommandArg::Variable { name: name.clone(), value: v }
                            } else {
                                proof {
                                    reveal_strlit("args");
                                    assert("args"@ =~= args_name());
                                    assert(name@ != args_name());
                                }
                                match self.get_variable(name.as_str()) {
                                    Some(v) => {
                                        let vv = v.clone();
                                        MakefileCommandArg::Variable {
                                            name: name.clone(),
                                            value: vv,
                                        }
                                    },
                                    None => {
                                        let e = ParseError { name: name.clone() };
                                        proof {
                                            assert(!arg_ok(vars, argseq[a as int]));
                                            lemma_first_undeclared_args_skip(
                                                vars,
                                                argseq,
                                                0,
                                                a as int,
                                            );
                                            assert(first_undeclared_args(vars, argseq, 0)
                                                == Some(name@));
                                            lemma_first_undeclared_cmds_skip(
                                                vars,
                                                cmdseq,
                                                0,
                                                c as int,
                                            );
                                            assert(first_undeclared_cmds(vars, cmdseq, 0)
                                                == Some(name@));
                                            lemma_first_undeclared_rules_skip(
                                                vars,
                                                rl,
                                                0,
                                                k as int,
                                            );
                                            assert(doc_first_undeclared(old(self)@) == Some(
                                                name@,
                                            ));
                                        }
                                        return Err(e);
                                    },
                                }
                            }
                        },
                    };
                    proof {
                        assert(arg_ok(vars, argseq[a as int]));
                        assert(new_arg@ == resolve_arg(vars, argseq[a as int]));
                    }
                    let ghost prev = new_args.deep_view();
                    new_args.push(new_arg);
                    proof {
                        assert(new_args.deep_view() =~= prev.push(
                            resolve_arg(vars, argseq[a as int]),
                        ));
                    }
                    a += 1;
                }
                proof {
                    lemma_first_undeclared_args_skip(vars, argseq, 0, na as int);
                    assert(first_undeclared_args(vars, argseq, 0) is None);
                    assert(new_args.deep_view() =~= resolve_args(vars, argseq));
                }
                let ghost prevc = new_cmds.deep_view();
                new_cmds.push(new_args);
                proof {
                    assert(new_cmds.deep_view() =~= prevc.push(resolve_args(vars, argseq)));
                }
                c += 1;
            }
            proof {
                lemma_first_undeclared_cmds_skip(vars, cmdseq, 0, nc as int);
                assert(first_undeclared_cmds(vars, cmdseq, 0) is None);
            }
            let target = self.rules[k].target.clone();
            let deps = clone_strings(&self.rules[k].dependencies);
            let new_rule = MakefileRule { target, dependencies: deps, commands: new_cmds };
            proof {
                assert(new_rule@.commands =~= resolve_cmds(vars, cmdseq));
                assert(new_rule@ =~= resolve_rule(vars, rl[k as int]));
            }
            let ghost prevr = new_rules.deep_view();
            new_rules.push(new_rule);
            proof {
                assert(new_rules.deep_view() =~= prevr.push(resolve_rule(vars, rl[k as int])));
            }
            k += 1;
        }
        proof {
            lemma_first_undeclared_rules_skip(vars, rl, 0, nr as int);
            assert(doc_first_undeclared(old(self)@) is None);
        }
        self.rules = new_rules;
        proof {
            assert(self.rules.deep_view() =~= resolved_doc(old(self)@).rules);
            assert(final(self)@ =~= resolved_doc(old(self)@));
        }
        Ok(())
    }
}

} // verus!
