//! The laws of the library, stated and proved over the grammar model.
//!
//! Each public proof function here states one guarantee of parsing or
//! resolution for every input, not merely for chosen examples.

use vstd::prelude::*;

use crate::grammar::{
    arg_ok, args_of_tokens, assignment_of, build_doc, build_from, classify, classify_token,
    cmd_run_len, doc_first_undeclared, empty_doc, first_undeclared_args, first_undeclared_cmds,
    first_undeclared_rules, header_of, lemma_cmd_run_len, lemma_first_undeclared_args_skip,
    lemma_first_undeclared_cmds_skip, lemma_first_undeclared_rules_skip, render_arg,
    render_cmd, render_cmd_raw, resolve_arg, resolve_args, resolve_cmds, resolve_rule,
    resolved_doc, tokens_ok, unknown_value, valid_ident, valid_name, valid_value, ArgModel,
    DocModel, LineClass, RuleModel,
};
use crate::text::{
    find_from, is_ident_char, is_name_char, is_ws, lemma_find_from, lemma_run_len_exact,
    lemma_skip_ws_len, lemma_skip_ws_len_exact, lemma_tokens_concat_shift, lemma_tokens_ws_tail,
    lemma_trim, lemma_trim_end_idx, lemma_trim_keeps, lines_from, skip_ws_len, spec_trim,
    tokens_from, trim_end_idx,
};

verus! {

// ---------------------------------------------------------------------------
// Valid and invalid assignment lines
// ---------------------------------------------------------------------------

/// When the text before position `k` trims to a valid identifier, the whole
/// line trims to something that starts with an identifier character.
proof fn lemma_trim_starts_ident(text: Seq<char>, k: int)
    requires
        0 <= k <= text.len(),
        valid_ident(spec_trim(text.subrange(0, k))),
    ensures
        spec_trim(text).len() > 0,
        is_ident_char(spec_trim(text)[0]),
        skip_ws_len(text, 0) < k,
{
    let pre = text.subrange(0, k);
    let name = spec_trim(pre);
    lemma_trim(pre);
    lemma_skip_ws_len(pre, 0);
    let a0 = skip_ws_len(pre, 0) as int;
    assert(name[0] == pre[a0]);
    assert(!is_ws(pre[a0])) by {
        assert(a0 < k);
    }
    assert(pre[a0] == text[a0]);
    assert(forall|j: int| 0 <= j < a0 ==> is_ws(text[j])) by {
        assert(forall|j: int| 0 <= j < a0 ==> text[j] == pre[j] && is_ws(pre[j]));
    }
    lemma_skip_ws_len_exact(text, 0, a0);
    lemma_trim_keeps(text, a0);
    assert(spec_trim(text)[0] == text[a0]);
}

/// A line recognized as a variable assignment, alone in a document, yields
/// exactly that one binding: no comment, no rule, and a document that
/// resolves.
pub proof fn lemma_assignment_line(text: Seq<char>)
    requires
        find_from(text, 0, '\n') is None,
        assignment_of(text) is Some,
    ensures
        build_doc(text).vars == Map::<Seq<char>, Seq<char>>::empty().insert(
            assignment_of(text).unwrap().0,
            assignment_of(text).unwrap().1,
        ),
        build_doc(text).comments == Seq::<Seq<char>>::empty(),
        build_doc(text).rules == Seq::<RuleModel>::empty(),
        doc_first_undeclared(build_doc(text)) is None,
{
    let lines = lines_from(text, 0);
    assert(text.subrange(0, text.len() as int) =~= text);
    assert(lines =~= seq![text]);
    let k = find_from(text, 0, '=').unwrap();
    lemma_find_from(text, 0, '=');
    let nv = assignment_of(text).unwrap();
    lemma_trim_starts_ident(text, k);
    assert(spec_trim(text)[0] != '#');
    assert(classify(text) == (LineClass::Assignment { name: nv.0, value: nv.1 }));
    let acc1 = DocModel {
        vars: empty_doc().vars.insert(nv.0, nv.1),
        ..empty_doc()
    };
    assert(build_from(empty_doc(), lines, 0) == build_from(acc1, lines, 1));
    assert(build_from(acc1, lines, 1) == acc1);
    assert(build_doc(text) == acc1);
}

/// A line that looks like an assignment but whose value is empty or holds a
/// disallowed character is dropped entirely: it binds nothing, produces no
/// rule and no comment, and raises no error.
pub proof fn lemma_invalid_assignment_dropped(text: Seq<char>)
    requires
        find_from(text, 0, '\n') is None,
        find_from(text, 0, '=') is Some,
        valid_ident(spec_trim(text.subrange(0, find_from(text, 0, '=').unwrap()))),
        !valid_value(
            spec_trim(text.subrange(find_from(text, 0, '=').unwrap() + 1, text.len() as int)),
        ),
    ensures
        build_doc(text) == empty_doc(),
        doc_first_undeclared(build_doc(text)) is None,
{
    let lines = lines_from(text, 0);
    assert(text.subrange(0, text.len() as int) =~= text);
    assert(lines =~= seq![text]);
    let k = find_from(text, 0, '=').unwrap();
    lemma_find_from(text, 0, '=');
    lemma_trim_starts_ident(text, k);
    assert(spec_trim(text)[0] != '#');
    assert(assignment_of(text) is None);
    // The line is not a rule header either: any colon comes after the `=`,
    // so the `=` survives into the trimmed target, which rejects it.
    match find_from(text, 0, ':') {
        None => {},
        Some(c) => {
            lemma_find_from(text, 0, ':');
            let pre = text.subrange(0, k);
            if c < k {
                assert(pre[c] == ':');
                assert(!is_ws(':'));
                lemma_trim_keeps(pre, c);
                let name = spec_trim(pre);
                let a = skip_ws_len(pre, 0) as int;
                let b = trim_end_idx(pre, pre.len() as int);
                lemma_trim_end_idx(pre, pre.len() as int);
                assert(a <= c && c < b);
                assert(name == pre.subrange(a, b));
                let idx = c - skip_ws_len(pre, 0);
                assert(name[idx] == ':');
                assert(0 <= idx < name.len());
                assert(is_ident_char(name[idx]));
                assert(false);
            }
            assert(c > k);
            let pre2 = text.subrange(0, c);
            assert(pre2[k] == '=');
            assert(!is_ws('='));
            lemma_trim_keeps(pre2, k);
            let tgt = spec_trim(pre2);
            let a2 = skip_ws_len(pre2, 0) as int;
            let b2 = trim_end_idx(pre2, pre2.len() as int);
            lemma_trim_end_idx(pre2, pre2.len() as int);
            assert(a2 <= k && k < b2);
            assert(tgt == pre2.subrange(a2, b2));
            let idx2 = k - skip_ws_len(pre2, 0);
            assert(tgt[idx2] == '=');
            assert(0 <= idx2 < tgt.len());
            assert(!is_name_char('='));
            assert(!valid_name(tgt)) by {
                assert(0 <= idx2 < tgt.len() && !is_name_char(tgt[idx2]));
            }
            assert(header_of(text) is None);
        },
    }
    assert(classify(text) is Command || classify(text) is Junk);
    assert(build_from(empty_doc(), lines, 0) == build_from(empty_doc(), lines, 1));
    assert(build_doc(text) == empty_doc());
}

// ---------------------------------------------------------------------------
// Comments are collected verbatim, in document order
// ---------------------------------------------------------------------------

/// The trimmed texts of the comment-class lines from position `i` on, in
/// order.
pub open spec fn comments_of_lines(lines: Seq<Seq<char>>, i: int) -> Seq<Seq<char>>
    decreases lines.len() - i,
{
    if i < 0 || i >= lines.len() {
        Seq::empty()
    } else {
        match classify(lines[i]) {
            LineClass::Comment { text } => seq![text] + comments_of_lines(lines, i + 1),
            _ => comments_of_lines(lines, i + 1),
        }
    }
}

proof fn lemma_comments_skip(lines: Seq<Seq<char>>, i: int, j: int)
    requires
        0 <= i <= j <= lines.len(),
        forall|m: int| i <= m < j ==> !(classify(#[trigger] lines[m]) is Comment),
    ensures
        comments_of_lines(lines, i) == comments_of_lines(lines, j),
    decreases j - i,
{
    if i < j {
        lemma_comments_skip(lines, i + 1, j);
    }
}

proof fn lemma_build_comments(acc: DocModel, lines: Seq<Seq<char>>, i: int)
    requires
        0 <= i <= lines.len(),
    ensures
        build_from(acc, lines, i).comments == acc.comments + comments_of_lines(lines, i),
    decreases lines.len() - i,
{
    if i >= lines.len() {
        assert(acc.comments + comments_of_lines(lines, i) =~= acc.comments);
    } else {
        match classify(lines[i]) {
            LineClass::Blank => {
                lemma_build_comments(acc, lines, i + 1);
            },
            LineClass::Junk => {
                lemma_build_comments(acc, lines, i + 1);
            },
            LineClass::Command { args: _ } => {
                lemma_build_comments(acc, lines, i + 1);
            },
            LineClass::Comment { text } => {
                let acc1 = DocModel { comments: acc.comments.push(text), ..acc };
                lemma_build_comments(acc1, lines, i + 1);
                assert(acc.comments.push(text) + comments_of_lines(lines, i + 1) =~= acc.comments
                    + (seq![text] + comments_of_lines(lines, i + 1)));
            },
            LineClass::Assignment { name, value } => {
                let acc1 = DocModel { vars: acc.vars.insert(name, value), ..acc };
                lemma_build_comments(acc1, lines, i + 1);
            },
            LineClass::Header { target, deps } => {
                let n = cmd_run_len(lines, i + 1);
                let j = i + 1 + n;
                lemma_cmd_run_len(lines, i + 1);
                assert(forall|m: int| i <= m < j ==> !(classify(#[trigger] lines[m]) is Comment));
                lemma_comments_skip(lines, i, j);
                match crate::grammar::block_args(lines, i + 1, n) {
                    None => {
                        lemma_build_comments(acc, lines, j);
                    },
                    Some(cmds) => {
                        if n == 0 && j < lines.len() && classify(lines[j]) is Junk {
                            lemma_build_comments(acc, lines, j);
                        } else {
                            let acc1 = DocModel {
                                rules: acc.rules.push(
                                    RuleModel { target, deps, commands: cmds },
                                ),
                                ..acc
                            };
                            lemma_build_comments(acc1, lines, j);
                        }
                    },
                }
            },
        }
    }
}

/// Parsing collects exactly the comment-class lines (those whose trimmed text
/// starts with `'#'`), trimmed, in document order.
pub proof fn lemma_comments_collected(text: Seq<char>)
    ensures
        build_doc(text).comments == comments_of_lines(lines_from(text, 0), 0),
{
    lemma_build_comments(empty_doc(), lines_from(text, 0), 0);
    assert(empty_doc().comments + comments_of_lines(lines_from(text, 0), 0) =~= comments_of_lines(
        lines_from(text, 0),
        0,
    ));
}

// ---------------------------------------------------------------------------
// Rendering without substitution re-tokenizes to the same classified tokens
// ---------------------------------------------------------------------------

/// A well-formed command token: what the grammar can actually produce.  Plain
/// arguments and flags are nonempty, hold no whitespace, and begin with their
/// distinguishing character (or neither marker); a reference carries a valid
/// identifier.
pub open spec fn wf_arg(a: ArgModel) -> bool {
    match a {
        ArgModel::Argument { text } => text.len() > 0 && (forall|j: int|
            0 <= j < text.len() ==> !is_ws(#[trigger] text[j])) && text[0] != '-' && text[0]
            != '$',
        ArgModel::Flag { text } => text.len() > 0 && (forall|j: int|
            0 <= j < text.len() ==> !is_ws(#[trigger] text[j])) && text[0] == '-',
        ArgModel::Variable { name, value: _ } => valid_ident(name),
    }
}

/// The token with its resolution state forgotten: a reference carries the
/// unresolved sentinel again.
pub open spec fn reset_arg(a: ArgModel) -> ArgModel {
    match a {
        ArgModel::Variable { name, value: _ } => ArgModel::Variable {
            name,
            value: unknown_value(),
        },
        _ => a,
    }
}

/// Every token the grammar classifies out of a nonempty whitespace-free text
/// is well-formed, so the round-trip law below applies to every command a
/// parse produces.
pub proof fn lemma_classified_token_wf(t: Seq<char>)
    requires
        t.len() > 0,
        forall|j: int| 0 <= j < t.len() ==> !is_ws(#[trigger] t[j]),
        classify_token(t) is Some,
    ensures
        wf_arg(classify_token(t).unwrap()),
{
}

/// Resolution never changes a token's kind, text or name, so it preserves
/// well-formedness.
pub proof fn lemma_resolve_keeps_wf(vars: Map<Seq<char>, Seq<char>>, a: ArgModel)
    requires
        wf_arg(a),
    ensures
        wf_arg(resolve_arg(vars, a)),
{
}

/// A rendered well-formed token is nonempty, holds no whitespace, and
/// classifies back to itself (with the resolution state forgotten).
proof fn lemma_token_round(a: ArgModel)
    requires
        wf_arg(a),
    ensures
        render_arg(a, false).len() > 0,
        forall|j: int| 0 <= j < render_arg(a, false).len() ==> !is_ws(
            #[trigger] render_arg(a, false)[j],
        ),
        classify_token(render_arg(a, false)) == Some(reset_arg(a)),
{
    let t = render_arg(a, false);
    match a {
        ArgModel::Argument { text } => {
            assert(classify_token(t) == Some(ArgModel::Argument { text }));
        },
        ArgModel::Flag { text } => {
            assert(classify_token(t) == Some(ArgModel::Flag { text }));
        },
        ArgModel::Variable { name, value } => {
            assert(t == seq!['$', '('] + name + seq![')']);
            assert(t.len() == name.len() + 3);
            assert(t[0] == '$');
            assert(t[1] == '(');
            assert(t[t.len() - 1] == ')');
            assert(t.subrange(2, t.len() - 1) =~= name);
            assert forall|j: int| 0 <= j < t.len() implies !is_ws(#[trigger] t[j]) by {
                if 2 <= j < t.len() - 1 {
                    assert(t[j] == name[j - 2]);
                    assert(is_ident_char(name[j - 2]));
                }
            }
            assert(classify_token(t) == Some(
                ArgModel::Variable { name, value: unknown_value() },
            ));
        },
    }
}

/// The rendered tokens of `args[i..]`, each followed by a blank, tokenize
/// back to the rendered texts, one token per argument.
proof fn lemma_raw_tokens(args: Seq<ArgModel>, i: int)
    requires
        0 <= i <= args.len(),
        forall|z: int| 0 <= z < args.len() ==> wf_arg(#[trigger] args[z]),
    ensures
        tokens_from(render_cmd_raw(args, false, i), 0) =~= Seq::new(
            (args.len() - i) as nat,
            |z: int| render_arg(args[i + z], false),
        ),
    decreases (args.len() - i) as nat,
{
    if i >= args.len() {
        assert(render_cmd_raw(args, false, i) == Seq::<char>::empty());
    } else {
        let t = render_arg(args[i], false);
        lemma_token_round(args[i]);
        let rest = render_cmd_raw(args, false, i + 1);
        let p = t + seq![' '];
        let raw = render_cmd_raw(args, false, i);
        assert(raw =~= p + rest);
        assert(forall|j: int| 0 <= j < t.len() ==> (p + rest)[j] == t[j]);
        assert((p + rest)[t.len() as int] == ' ');
        lemma_run_len_exact(p + rest, 0, t.len() as int);
        assert((p + rest).subrange(0, t.len() as int) =~= t);
        lemma_tokens_concat_shift(p, rest, 0);
        assert(tokens_from(p + rest, p.len() as int) == tokens_from(rest, 0));
        lemma_raw_tokens(args, i + 1);
        assert(!is_ws((p + rest)[0]));
        assert((p + rest)[t.len() as int] == ' ');
        assert(is_ws((p + rest)[t.len() as int]));
        assert(tokens_from(p + rest, t.len() as int) == tokens_from(p + rest, t.len() as int + 1));
        assert(tokens_from(p + rest, 0) == seq![t] + tokens_from(p + rest, t.len() as int + 1));
        assert(tokens_from(raw, 0) =~= Seq::new(
            (args.len() - i) as nat,
            |z: int| render_arg(args[i + z], false),
        ));
    }
}

/// Round trip: rendering a command line with substitution disabled and
/// re-tokenizing it reproduces the same sequence of classified tokens — the
/// same kinds, texts and names — with every reference back in its unresolved
/// state.
pub proof fn lemma_render_tokenize_roundtrip(args: Seq<ArgModel>)
    requires
        forall|z: int| 0 <= z < args.len() ==> wf_arg(#[trigger] args[z]),
    ensures
        tokens_ok(tokens_from(render_cmd(args, false), 0)),
        args_of_tokens(tokens_from(render_cmd(args, false), 0)) == Seq::new(
            args.len(),
            |z: int| reset_arg(args[z]),
        ),
{
    let raw = render_cmd_raw(args, false, 0);
    let trimmed = render_cmd(args, false);
    lemma_trim(raw);
    if args.len() == 0 {
        assert(raw == Seq::<char>::empty());
        assert(trimmed.len() == 0);
        assert(tokens_from(trimmed, 0) =~= Seq::<Seq<char>>::empty());
        assert(args_of_tokens(tokens_from(trimmed, 0)) =~= Seq::new(
            args.len(),
            |z: int| reset_arg(args[z]),
        ));
    } else {
        let t0 = render_arg(args[0], false);
        lemma_token_round(args[0]);
        assert(raw == t0 + seq![' '] + render_cmd_raw(args, false, 1));
        assert(raw[0] == t0[0]);
        assert(!is_ws(raw[0]));
        assert(skip_ws_len(raw, 0) == 0);
        lemma_trim_end_idx(raw, raw.len() as int);
        let b = trim_end_idx(raw, raw.len() as int);
        assert(b > 0) by {
            if b == 0 {
                assert(is_ws(raw[0]));
            }
        }
        assert(trimmed == raw.subrange(0, b));
        lemma_tokens_ws_tail(raw, b, 0);
        assert(tokens_from(trimmed, 0) == tokens_from(raw, 0));
        lemma_raw_tokens(args, 0);
        let ts = tokens_from(trimmed, 0);
        assert(ts.len() == args.len());
        assert forall|z: int| 0 <= z < ts.len() implies (#[trigger] classify_token(ts[z]))
            == Some(reset_arg(args[z])) by {
            assert(ts[z] == render_arg(args[z], false));
            lemma_token_round(args[z]);
        }
        assert(tokens_ok(ts));
        assert(args_of_tokens(ts) =~= Seq::new(args.len(), |z: int| reset_arg(args[z])));
    }
}

// ---------------------------------------------------------------------------
// Resolution is idempotent
// ---------------------------------------------------------------------------

proof fn lemma_args_all_ok(vars: Map<Seq<char>, Seq<char>>, args: Seq<ArgModel>, i: int)
    requires
        0 <= i <= args.len(),
        first_undeclared_args(vars, args, i) is None,
    ensures
        forall|z: int| i <= z < args.len() ==> arg_ok(vars, #[trigger] args[z]),
    decreases (args.len() - i) as nat,
{
    if i < args.len() {
        lemma_args_all_ok(vars, args, i + 1);
    }
}

proof fn lemma_cmds_all_ok(vars: Map<Seq<char>, Seq<char>>, cmds: Seq<Seq<ArgModel>>, j: int)
    requires
        0 <= j <= cmds.len(),
        first_undeclared_cmds(vars, cmds, j) is None,
    ensures
        forall|y: int|
            j <= y < cmds.len() ==> first_undeclared_args(vars, #[trigger] cmds[y], 0) is None,
    decreases cmds.len() - j,
{
    if j < cmds.len() {
        lemma_cmds_all_ok(vars, cmds, j + 1);
    }
}

proof fn lemma_rules_all_ok(vars: Map<Seq<char>, Seq<char>>, rules: Seq<RuleModel>, k: int)
    requires
        0 <= k <= rules.len(),
        first_undeclared_rules(vars, rules, k) is None,
    ensures
        forall|x: int|
            k <= x < rules.len() ==> first_undeclared_cmds(
                vars,
                (#[trigger] rules[x]).commands,
                0,
            ) is None,
    decreases rules.len() - k,
{
    if k < rules.len() {
        lemma_rules_all_ok(vars, rules, k + 1);
    }
}

/// Resolving one token twice gives what resolving it once gives, and a token
/// that resolved stays resolvable.
proof fn lemma_resolve_arg_idempotent(vars: Map<Seq<char>, Seq<char>>, a: ArgModel)
    ensures
        resolve_arg(vars, resolve_arg(vars, a)) == resolve_arg(vars, a),
        arg_ok(vars, resolve_arg(vars, a)) == arg_ok(vars, a),
{
}

/// Idempotence of resolution: resolving an already-resolved document a second
/// time changes nothing, given unchanged declared variables; and the resolved
/// document still resolves.
pub proof fn lemma_resolution_idempotent(d: DocModel)
    requires
        doc_first_undeclared(d) is None,
    ensures
        doc_first_undeclared(resolved_doc(d)) is None,
        resolved_doc(resolved_doc(d)) == resolved_doc(d),
{
    let vars = d.vars;
    let rd = resolved_doc(d);
    assert(rd.vars == vars);
    // Equality of the doubly-resolved document, pointwise.
    assert forall|k: int| 0 <= k < rd.rules.len() implies resolve_rule(
        vars,
        #[trigger] rd.rules[k],
    ) == rd.rules[k] by {
        let rc = rd.rules[k].commands;
        assert(rc == resolve_cmds(vars, d.rules[k].commands));
        assert forall|j: int| 0 <= j < rc.len() implies resolve_args(vars, #[trigger] rc[j])
            == rc[j] by {
            assert forall|z: int| 0 <= z < rc[j].len() implies resolve_arg(
                vars,
                #[trigger] rc[j][z],
            ) == rc[j][z] by {
                assert(rc[j][z] == resolve_arg(vars, d.rules[k].commands[j][z]));
                lemma_resolve_arg_idempotent(vars, d.rules[k].commands[j][z]);
            }
            assert(resolve_args(vars, rc[j]) =~= rc[j]);
        }
        assert(resolve_cmds(vars, rc) =~= rc);
    }
    assert(resolved_doc(rd).rules =~= rd.rules);
    assert(resolved_doc(rd) =~= rd);
    // The resolved document still has no undeclared reference.
    lemma_rules_all_ok(vars, d.rules, 0);
    assert forall|x: int| 0 <= x < rd.rules.len() implies first_undeclared_cmds(
        vars,
        (#[trigger] rd.rules[x]).commands,
        0,
    ) is None by {
        let oc = d.rules[x].commands;
        let rc = rd.rules[x].commands;
        assert(rc == resolve_cmds(vars, oc));
        lemma_cmds_all_ok(vars, oc, 0);
        assert forall|y: int| 0 <= y < rc.len() implies first_undeclared_args(
            vars,
            #[trigger] rc[y],
            0,
        ) is None by {
            lemma_args_all_ok(vars, oc[y], 0);
            assert forall|z: int| 0 <= z < rc[y].len() implies arg_ok(
                vars,
                #[trigger] rc[y][z],
            ) by {
                assert(rc[y][z] == resolve_arg(vars, oc[y][z]));
                lemma_resolve_arg_idempotent(vars, oc[y][z]);
            }
            lemma_first_undeclared_args_skip(vars, rc[y], 0, rc[y].len() as int);
        }
        lemma_first_undeclared_cmds_skip(vars, rc, 0, rc.len() as int);
    }
    lemma_first_undeclared_rules_skip(vars, rd.rules, 0, rd.rules.len() as int);
}

} // verus!
