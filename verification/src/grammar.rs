//! The grammar of the build-description language, as a mathematical model.
//!
//! A document is split into lines; each line falls into exactly one class
//! (blank, comment, variable assignment, rule header, indented command line,
//! or unrecognized).  [`build_from`] folds the classified lines into a
//! [`DocModel`]; the resolution pass is modelled by [`resolved_doc`] and
//! [`doc_first_undeclared`].  The executable parser in `makefile` is verified
//! against these functions.

use vstd::prelude::*;

use crate::text::{
    cmd_marker, find_from, is_ident_char, is_name_char, is_value_char, lines_from, spec_trim,
    tokens_from,
};

verus! {

/// The variable name that is always resolved to a fixed placeholder, standing
/// for a value supplied by the invoking environment.
pub open spec fn args_name() -> Seq<char> {
    seq!['a', 'r', 'g', 's']
}

/// The value given to a reference to the reserved `args` variable.
pub open spec fn user_defined_value() -> Seq<char> {
    seq!['U', 'S', 'E', 'R', '_', 'D', 'E', 'F', 'I', 'N', 'E', 'D']
}

/// The sentinel carried by a variable reference before resolution.
pub open spec fn unknown_value() -> Seq<char> {
    seq!['U', 'N', 'K', 'N', 'O', 'W', 'N']
}

/// Model of one classified command token.
#[verifier::ext_equal]
pub enum ArgModel {
    Argument { text: Seq<char> },
    Flag { text: Seq<char> },
    Variable { name: Seq<char>, value: Seq<char> },
}

/// Model of one rule: a target, its dependencies, and its command lines.
#[verifier::ext_equal]
pub struct RuleModel {
    pub target: Seq<char>,
    pub deps: Seq<Seq<char>>,
    pub commands: Seq<Seq<ArgModel>>,
}

/// Model of a parsed document.
#[verifier::ext_equal]
pub struct DocModel {
    pub vars: Map<Seq<char>, Seq<char>>,
    pub comments: Seq<Seq<char>>,
    pub rules: Seq<RuleModel>,
}

pub open spec fn empty_doc() -> DocModel {
    DocModel { vars: Map::empty(), comments: Seq::empty(), rules: Seq::empty() }
}

/// A nonempty run of identifier characters.
pub open spec fn valid_ident(s: Seq<char>) -> bool {
    s.len() > 0 && forall|i: int| 0 <= i < s.len() ==> is_ident_char(#[trigger] s[i])
}

/// A nonempty run of target/dependency characters.
pub open spec fn valid_name(s: Seq<char>) -> bool {
    s.len() > 0 && forall|i: int| 0 <= i < s.len() ==> is_name_char(#[trigger] s[i])
}

/// A nonempty run of value characters.
pub open spec fn valid_value(s: Seq<char>) -> bool {
    s.len() > 0 && forall|i: int| 0 <= i < s.len() ==> is_value_char(#[trigger] s[i])
}

/// Classification of one whitespace-separated command token.  A token whose
/// first character is `'$'` must have the exact shape `$(NAME)`; otherwise
/// the whole command line fails to tokenize (`None`).  A token starting with
/// `'-'` is a flag; anything else is a plain argument.
pub open spec fn classify_token(t: Seq<char>) -> Option<ArgModel> {
    if t.len() > 0 && t[0] == '$' {
        if t.len() >= 4 && t[1] == '(' && t[t.len() - 1] == ')' && valid_ident(
            t.subrange(2, t.len() - 1),
        ) {
            Some(
                ArgModel::Variable {
                    name: t.subrange(2, t.len() - 1),
                    value: unknown_value(),
                },
            )
        } else {
            None
        }
    } else if t.len() > 0 && t[0] == '-' {
        Some(ArgModel::Flag { text: t })
    } else {
        Some(ArgModel::Argument { text: t })
    }
}

pub open spec fn tokens_ok(ts: Seq<Seq<char>>) -> bool {
    forall|i: int| 0 <= i < ts.len() ==> (#[trigger] classify_token(ts[i])) is Some
}

pub open spec fn args_of_tokens(ts: Seq<Seq<char>>) -> Seq<ArgModel> {
    Seq::new(ts.len(), |i: int| classify_token(ts[i]).unwrap())
}

/// A variable assignment `NAME = VALUE`: the line is split at its first `'='`;
/// both sides are trimmed; the name must be a valid identifier and the value a
/// nonempty run of value characters, or the line is not an assignment at all.
pub open spec fn assignment_of(line: Seq<char>) -> Option<(Seq<char>, Seq<char>)> {
    match find_from(line, 0, '=') {
        None => None,
        Some(k) => {
            let name = spec_trim(line.subrange(0, k));
            let value = spec_trim(line.subrange(k + 1, line.len() as int));
            if valid_ident(name) && valid_value(value) {
                Some((name, value))
            } else {
                None
            }
        },
    }
}

/// A rule header `TARGET: DEP DEP ...`: the line is split at its first `':'`;
/// the trimmed target and every dependency token must consist of name
/// characters, or the line is not a header at all.
pub open spec fn header_of(line: Seq<char>) -> Option<(Seq<char>, Seq<Seq<char>>)> {
    match find_from(line, 0, ':') {
        None => None,
        Some(k) => {
            let target = spec_trim(line.subrange(0, k));
            let deps = tokens_from(line, k + 1);
            if valid_name(target) && (forall|i: int|
                0 <= i < deps.len() ==> valid_name(#[trigger] deps[i])) {
                Some((target, deps))
            } else {
                None
            }
        },
    }
}

/// The class of one line.
#[verifier::ext_equal]
pub enum LineClass {
    Blank,
    Comment { text: Seq<char> },
    Assignment { name: Seq<char>, value: Seq<char> },
    Header { target: Seq<char>, deps: Seq<Seq<char>> },
    Command { args: Option<Seq<ArgModel>> },
    Junk,
}

/// Every line belongs to exactly one class, decided by the first alternative
/// that matches: blank, comment, assignment, rule header, indented command
/// line, unrecognized.
pub open spec fn classify(line: Seq<char>) -> LineClass {
    let t = spec_trim(line);
    if t.len() == 0 {
        LineClass::Blank
    } else if t[0] == '#' {
        LineClass::Comment { text: t }
    } else if assignment_of(line) is Some {
        let nv = assignment_of(line).unwrap();
        LineClass::Assignment { name: nv.0, value: nv.1 }
    } else if header_of(line) is Some {
        let td = header_of(line).unwrap();
        LineClass::Header { target: td.0, deps: td.1 }
    } else if line.len() > 0 && line[0] == cmd_marker() {
        let ts = tokens_from(line, 1);
        LineClass::Command {
            args: if tokens_ok(ts) {
                Some(args_of_tokens(ts))
            } else {
                None
            },
        }
    } else {
        LineClass::Junk
    }
}

/// Number of consecutive command-class lines starting at `j`.
pub open spec fn cmd_run_len(lines: Seq<Seq<char>>, j: int) -> nat
    decreases lines.len() - j,
{
    if j < 0 || j >= lines.len() || !(classify(lines[j]) is Command) {
        0
    } else {
        1 + cmd_run_len(lines, j + 1)
    }
}

pub proof fn lemma_cmd_run_len(lines: Seq<Seq<char>>, j: int)
    requires
        0 <= j <= lines.len(),
    ensures
        j + cmd_run_len(lines, j) <= lines.len(),
        forall|k: int|
            j <= k < j + cmd_run_len(lines, j) ==> classify(#[trigger] lines[k]) is Command,
        j + cmd_run_len(lines, j) < lines.len() ==> !(classify(
            lines[j + cmd_run_len(lines, j)],
        ) is Command),
    decreases lines.len() - j,
{
    if j < lines.len() && classify(lines[j]) is Command {
        lemma_cmd_run_len(lines, j + 1);
    }
}

/// The command lines of a rule block: the tokenized arguments of the `n`
/// command-class lines starting at `j`, or `None` if any of them fails to
/// tokenize.
pub open spec fn block_args(lines: Seq<Seq<char>>, j: int, n: nat) -> Option<Seq<Seq<ArgModel>>>
    decreases n,
{
    if n == 0 {
        Some(Seq::empty())
    } else {
        match block_args(lines, j, (n - 1) as nat) {
            None => None,
            Some(pre) => match classify(lines[j + n - 1]) {
                LineClass::Command { args } => match args {
                    None => None,
                    Some(a) => Some(pre.push(a)),
                },
                _ => None,
            },
        }
    }
}

/// Folds the classified lines from position `i` into the accumulated document
/// `acc`.  A rule block is its header plus the maximal run of command-class
/// lines that follows.  The block is dropped when a command line fails to
/// tokenize, or when the header has no command lines and the next line is
/// unrecognized (an unindented continuation).
pub open spec fn build_from(acc: DocModel, lines: Seq<Seq<char>>, i: int) -> DocModel
    decreases lines.len() - i,
    via build_from_decreases
{
    if i < 0 || i >= lines.len() {
        acc
    } else {
        match classify(lines[i]) {
            LineClass::Blank => build_from(acc, lines, i + 1),
            LineClass::Junk => build_from(acc, lines, i + 1),
            LineClass::Command { args: _ } => build_from(acc, lines, i + 1),
            LineClass::Comment { text } => build_from(
                DocModel { comments: acc.comments.push(text), ..acc },
                lines,
                i + 1,
            ),
            LineClass::Assignment { name, value } => build_from(
                DocModel { vars: acc.vars.insert(name, value), ..acc },
                lines,
                i + 1,
            ),
            LineClass::Header { target, deps } => {
                let n = cmd_run_len(lines, i + 1);
                let j = i + 1 + n;
                match block_args(lines, i + 1, n) {
                    None => build_from(acc, lines, j),
                    Some(cmds) => if n == 0 && j < lines.len() && classify(lines[j]) is Junk {
                        build_from(acc, lines, j)
                    } else {
                        build_from(
                            DocModel {
                                rules: acc.rules.push(
                                    RuleModel { target, deps, commands: cmds },
                                ),
                                ..acc
                            },
                            lines,
                            j,
                        )
                    },
                }
            },
        }
    }
}

#[via_fn]
proof fn build_from_decreases(acc: DocModel, lines: Seq<Seq<char>>, i: int) {
    if 0 <= i < lines.len() {
        lemma_cmd_run_len(lines, i + 1);
    }
}

/// The document that parsing builds from raw text, before resolution.
pub open spec fn build_doc(s: Seq<char>) -> DocModel {
    build_from(empty_doc(), lines_from(s, 0), 0)
}

// ---------------------------------------------------------------------------
// Variable resolution
// ---------------------------------------------------------------------------

/// Whether a single token resolves: non-references always do; a reference
/// resolves when it names the reserved `args` variable or a declared one.
pub open spec fn arg_ok(vars: Map<Seq<char>, Seq<char>>, a: ArgModel) -> bool {
    match a {
        ArgModel::Variable { name, value: _ } => name == args_name() || vars.contains_key(name),
        _ => true,
    }
}

/// The name carried by a variable-reference token.
pub open spec fn arg_ref_name(a: ArgModel) -> Seq<char> {
    match a {
        ArgModel::Variable { name, value: _ } => name,
        ArgModel::Argument { text } => text,
        ArgModel::Flag { text } => text,
    }
}

/// One token after resolution: a reference takes the declared value, or the
/// fixed placeholder for the reserved `args` name; other tokens are unchanged.
pub open spec fn resolve_arg(vars: Map<Seq<char>, Seq<char>>, a: ArgModel) -> ArgModel {
    match a {
        ArgModel::Variable { name, value } => ArgModel::Variable {
            name,
            value: if name == args_name() {
                user_defined_value()
            } else if vars.contains_key(name) {
                vars[name]
            } else {
                value
            },
        },
        _ => a,
    }
}

/// First unresolvable name in one command, scanning from token `i`.
pub open spec fn first_undeclared_args(
    vars: Map<Seq<char>, Seq<char>>,
    args: Seq<ArgModel>,
    i: int,
) -> Option<Seq<char>>
    decreases args.len() - i,
{
    if i < 0 || i >= args.len() {
        None
    } else if !arg_ok(vars, args[i]) {
        Some(arg_ref_name(args[i]))
    } else {
        first_undeclared_args(vars, args, i + 1)
    }
}

/// First unresolvable name in a rule's commands, scanning from command `j`.
pub open spec fn first_undeclared_cmds(
    vars: Map<Seq<char>, Seq<char>>,
    cmds: Seq<Seq<ArgModel>>,
    j: int,
) -> Option<Seq<char>>
    decreases cmds.len() - j,
{
    if j < 0 || j >= cmds.len() {
        None
    } else {
        match first_undeclared_args(vars, cmds[j], 0) {
            Some(n) => Some(n),
            None => first_undeclared_cmds(vars, cmds, j + 1),
        }
    }
}

/// First unresolvable name in the whole document, scanning from rule `k`:
/// rules in document order, commands within a rule in order, tokens within a
/// command in order.
pub open spec fn first_undeclared_rules(
    vars: Map<Seq<char>, Seq<char>>,
    rules: Seq<RuleModel>,
    k: int,
) -> Option<Seq<char>>
    decreases rules.len() - k,
{
    if k < 0 || k >= rules.len() {
        None
    } else {
        match first_undeclared_cmds(vars, rules[k].commands, 0) {
            Some(n) => Some(n),
            None => first_undeclared_rules(vars, rules, k + 1),
        }
    }
}

pub open spec fn doc_first_undeclared(d: DocModel) -> Option<Seq<char>> {
    first_undeclared_rules(d.vars, d.rules, 0)
}

/// Scanning for the first unresolvable token may start after any prefix of
/// resolvable ones.
pub proof fn lemma_first_undeclared_args_skip(
    vars: Map<Seq<char>, Seq<char>>,
    args: Seq<ArgModel>,
    i: int,
    a: int,
)
    requires
        0 <= i <= a <= args.len(),
        forall|z: int| i <= z < a ==> arg_ok(vars, #[trigger] args[z]),
    ensures
        first_undeclared_args(vars, args, i) == first_undeclared_args(vars, args, a),
    decreases a - i,
{
    if i < a {
        lemma_first_undeclared_args_skip(vars, args, i + 1, a);
    }
}

/// Scanning for the first unresolvable command may start after any prefix of
/// fully resolvable ones.
pub proof fn lemma_first_undeclared_cmds_skip(
    vars: Map<Seq<char>, Seq<char>>,
    cmds: Seq<Seq<ArgModel>>,
    j: int,
    b: int,
)
    requires
        0 <= j <= b <= cmds.len(),
        forall|y: int| j <= y < b ==> first_undeclared_args(vars, #[trigger] cmds[y], 0) is None,
    ensures
        first_undeclared_cmds(vars, cmds, j) == first_undeclared_cmds(vars, cmds, b),
    decreases b - j,
{
    if j < b {
        lemma_first_undeclared_cmds_skip(vars, cmds, j + 1, b);
    }
}

/// Scanning for the first unresolvable rule may start after any prefix of
/// fully resolvable ones.
pub proof fn lemma_first_undeclared_rules_skip(
    vars: Map<Seq<char>, Seq<char>>,
    rules: Seq<RuleModel>,
    k: int,
    b: int,
)
    requires
        0 <= k <= b <= rules.len(),
        forall|x: int|
            k <= x < b ==> first_undeclared_cmds(vars, (#[trigger] rules[x]).commands, 0) is None,
    ensures
        first_undeclared_rules(vars, rules, k) == first_undeclared_rules(vars, rules, b),
    decreases b - k,
{
    if k < b {
        lemma_first_undeclared_rules_skip(vars, rules, k + 1, b);
    }
}

pub open spec fn resolve_args(vars: Map<Seq<char>, Seq<char>>, args: Seq<ArgModel>) -> Seq<
    ArgModel,
> {
    Seq::new(args.len(), |i: int| resolve_arg(vars, args[i]))
}

pub open spec fn resolve_cmds(vars: Map<Seq<char>, Seq<char>>, cmds: Seq<Seq<ArgModel>>) -> Seq<
    Seq<ArgModel>,
> {
    Seq::new(cmds.len(), |j: int| resolve_args(vars, cmds[j]))
}

pub open spec fn resolve_rule(vars: Map<Seq<char>, Seq<char>>, r: RuleModel) -> RuleModel {
    RuleModel { target: r.target, deps: r.deps, commands: resolve_cmds(vars, r.commands) }
}

/// The document after a successful resolution pass.
pub open spec fn resolved_doc(d: DocModel) -> DocModel {
    DocModel {
        vars: d.vars,
        comments: d.comments,
        rules: Seq::new(d.rules.len(), |k: int| resolve_rule(d.vars, d.rules[k])),
    }
}

// ---------------------------------------------------------------------------
// Rendering command lines back to strings
// ---------------------------------------------------------------------------

/// One token rendered back to text.  With substitution enabled a variable
/// reference renders as its carried value, otherwise as `$(NAME)`.
pub open spec fn render_arg(a: ArgModel, subst: bool) -> Seq<char> {
    match a {
        ArgModel::Argument { text } => text,
        ArgModel::Flag { text } => text,
        ArgModel::Variable { name, value } => if subst {
            value
        } else {
            seq!['$', '('] + name + seq![')']
        },
    }
}

/// The tokens from position `i` on, each followed by a single blank.
pub open spec fn render_cmd_raw(args: Seq<ArgModel>, subst: bool, i: int) -> Seq<char>
    decreases args.len() - i,
{
    if i < 0 || i >= args.len() {
        Seq::empty()
    } else {
        render_arg(args[i], subst) + seq![' '] + render_cmd_raw(args, subst, i + 1)
    }
}

/// A whole command line rendered to text: every token followed by a blank,
/// with the result trimmed.
pub open spec fn render_cmd(args: Seq<ArgModel>, subst: bool) -> Seq<char> {
    spec_trim(render_cmd_raw(args, subst, 0))
}

/// The message carried by an undeclared-variable error.
pub open spec fn error_message_of(name: Seq<char>) -> Seq<char> {
    seq![
        'U', 'n', 'd', 'e', 'c', 'l', 'a', 'r', 'e', 'd', ' ', 'v', 'a', 'r', 'i', 'a', 'b',
        'l', 'e', ' ', '`',
    ] + name + seq!['`']
}

} // verus!
