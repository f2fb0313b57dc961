//! The selection resolver: host and command tokens against a configuration.
//!
//! A host token first names a group (expanding to its members) and otherwise
//! names a host directly.  A token with a leading `!` excludes the stripped
//! name after all expansions.  Duplicates collapse to their first occurrence,
//! and names that no configured host carries are dropped with a warning.  The
//! surviving hosts and the resolved commands, with per-host aliases applied,
//! form the execution plan.

use vstd::prelude::*;
use crate::config::{lookup, has_key, str_views, MusshToml, Hosts, Host, Alias};
use crate::config::assoc_get;
use crate::error::MusshErrKind;

verus! {

/// Whether a token is an exclusion: it starts with `!`.
pub open spec fn is_exclusion(t: Seq<char>) -> bool {
    t.len() > 0 && t[0] == '!'
}

/// The name an exclusion token strips to.
pub open spec fn stripped(t: Seq<char>) -> Seq<char> {
    t.skip(1)
}

/// Whether `h` is named by an active exclusion token of this selection.
pub open spec fn is_excluded(tokens: Seq<Seq<char>>, h: Seq<char>) -> bool {
    exists|i: int| 0 <= i < tokens.len() && is_exclusion(tokens[i]) && stripped(tokens[i]) == h
}

/// What one positive token expands to: the members of the group it names, or
/// the token itself when no group carries that name.
pub open spec fn expand_token(groups: Seq<(String, Hosts)>, t: Seq<char>) -> Seq<Seq<char>> {
    match lookup(groups, t) {
        Some(g) => str_views(g.hostnames@),
        None => seq![t],
    }
}

/// The expansion of all positive tokens, in order; exclusion tokens expand to
/// nothing.
pub open spec fn expand_tokens(groups: Seq<(String, Hosts)>, tokens: Seq<Seq<char>>) -> Seq<
    Seq<char>,
>
    decreases tokens.len(),
{
    if tokens.len() == 0 {
        Seq::empty()
    } else {
        expand_tokens(groups, tokens.drop_last()) + (if is_exclusion(tokens.last()) {
            Seq::empty()
        } else {
            expand_token(groups, tokens.last())
        })
    }
}

/// The sequence with every later duplicate dropped: an element stays exactly
/// when no equal element stands before it.
pub open spec fn dedup_first(s: Seq<Seq<char>>) -> Seq<Seq<char>>
    decreases s.len(),
{
    if s.len() == 0 {
        Seq::empty()
    } else {
        dedup_first(s.drop_last()) + (if s.drop_last().contains(s.last()) {
            Seq::empty()
        } else {
            seq![s.last()]
        })
    }
}

/// `dedup_first` keeps exactly the names of its input.
pub proof fn lemma_dedup_membership(s: Seq<Seq<char>>, x: Seq<char>)
    ensures
        dedup_first(s).contains(x) <==> s.contains(x),
    decreases s.len(),
{
    if s.len() == 0 {
    } else {
        let dl = s.drop_last();
        let d = dedup_first(s);
        let dd = dedup_first(dl);
        lemma_dedup_membership(dl, x);
        assert(forall|i: int| 0 <= i < dl.len() ==> dl[i] == s[i]);
        if s.contains(x) {
            let i = choose|i: int| 0 <= i < s.len() && s[i] == x;
            if i < s.len() - 1 {
                assert(dl[i] == x);
                assert(dl.contains(x));
                let k = choose|k: int| 0 <= k < dd.len() && dd[k] == x;
                assert(d[k] == x);
                assert(d.contains(x));
            } else {
                if dl.contains(x) {
                    let k = choose|k: int| 0 <= k < dd.len() && dd[k] == x;
                    assert(d[k] == x);
                    assert(d.contains(x));
                } else {
                    assert(d[d.len() - 1] == x);
                    assert(d.contains(x));
                }
            }
        }
        if d.contains(x) {
            let k = choose|k: int| 0 <= k < d.len() && d[k] == x;
            if k < dd.len() {
                assert(dd[k] == x);
                assert(dd.contains(x));
                let i = choose|i: int| 0 <= i < dl.len() && dl[i] == x;
                assert(s[i] == x);
                assert(s.contains(x));
            } else {
                assert(d[k] == s.last());
                assert(s[s.len() - 1] == x);
                assert(s.contains(x));
            }
        }
    }
}

/// No two elements of `dedup_first` are equal.
pub proof fn lemma_dedup_distinct(s: Seq<Seq<char>>)
    ensures
        forall|i: int, j: int|
            0 <= i < j < dedup_first(s).len() ==> dedup_first(s)[i] != dedup_first(s)[j],
    decreases s.len(),
{
    if s.len() == 0 {
    } else {
        lemma_dedup_distinct(s.drop_last());
        if !s.drop_last().contains(s.last()) {
            lemma_dedup_membership(s.drop_last(), s.last());
            assert(forall|i: int|
                0 <= i < dedup_first(s.drop_last()).len() ==> dedup_first(s.drop_last())[i]
                    != s.last());
        }
    }
}

/// The candidates that survive the selection: those not excluded and carried
/// by a configured host, in candidate order.
pub open spec fn selected_hosts(
    toml: MusshToml,
    tokens: Seq<Seq<char>>,
    cands: Seq<Seq<char>>,
) -> Seq<Seq<char>>
    decreases cands.len(),
{
    if cands.len() == 0 {
        Seq::empty()
    } else {
        selected_hosts(toml, tokens, cands.drop_last()) + (if !is_excluded(tokens, cands.last())
            && has_key(toml.hosts@, cands.last()) {
            seq![cands.last()]
        } else {
            Seq::empty()
        })
    }
}

/// The candidates that are dropped with a warning: not excluded, but not the
/// name of any configured host.
pub open spec fn unknown_hosts(
    toml: MusshToml,
    tokens: Seq<Seq<char>>,
    cands: Seq<Seq<char>>,
) -> Seq<Seq<char>>
    decreases cands.len(),
{
    if cands.len() == 0 {
        Seq::empty()
    } else {
        unknown_hosts(toml, tokens, cands.drop_last()) + (if !is_excluded(tokens, cands.last())
            && !has_key(toml.hosts@, cands.last()) {
            seq![cands.last()]
        } else {
            Seq::empty()
        })
    }
}

/// The hosts a selection resolves to: expand the positive tokens against the
/// groups, collapse duplicates to the first occurrence, then keep what is
/// neither excluded nor unconfigured.
pub open spec fn resolve_hosts_spec(toml: MusshToml, tokens: Seq<Seq<char>>) -> Seq<Seq<char>> {
    selected_hosts(toml, tokens, dedup_first(expand_tokens(toml.hostlist@, tokens)))
}

/// The unknown host names a selection warns about.
pub open spec fn unknown_hosts_spec(toml: MusshToml, tokens: Seq<Seq<char>>) -> Seq<Seq<char>> {
    unknown_hosts(toml, tokens, dedup_first(expand_tokens(toml.hostlist@, tokens)))
}

/// Every selected host is configured, is not excluded, and was a candidate.
pub proof fn lemma_selected_hosts_props(
    toml: MusshToml,
    tokens: Seq<Seq<char>>,
    cands: Seq<Seq<char>>,
)
    ensures
        forall|i: int|
            0 <= i < selected_hosts(toml, tokens, cands).len() ==> {
                let h = #[trigger] selected_hosts(toml, tokens, cands)[i];
                &&& has_key(toml.hosts@, h)
                &&& !is_excluded(tokens, h)
                &&& cands.contains(h)
            },
    decreases cands.len(),
{
    if cands.len() == 0 {
    } else {
        let dl = cands.drop_last();
        lemma_selected_hosts_props(toml, tokens, dl);
        let sdl = selected_hosts(toml, tokens, dl);
        let s = selected_hosts(toml, tokens, cands);
        assert(forall|i: int| 0 <= i < dl.len() ==> dl[i] == cands[i]);
        assert forall|i: int| 0 <= i < s.len() implies {
            let h = #[trigger] s[i];
            &&& has_key(toml.hosts@, h)
            &&& !is_excluded(tokens, h)
            &&& cands.contains(h)
        } by {
            if i < sdl.len() {
                assert(s[i] == sdl[i]);
                let h = sdl[i];
                assert(dl.contains(h));
                let k = choose|k: int| 0 <= k < dl.len() && dl[k] == h;
                assert(cands[k] == h);
            } else {
                assert(s[i] == cands.last());
                assert(cands[cands.len() - 1] == cands.last());
            }
        }
    }
}

/// Distinct candidates select distinct hosts, in candidate order.
pub proof fn lemma_selected_hosts_distinct(
    toml: MusshToml,
    tokens: Seq<Seq<char>>,
    cands: Seq<Seq<char>>,
)
    requires
        forall|i: int, j: int| 0 <= i < j < cands.len() ==> cands[i] != cands[j],
    ensures
        forall|i: int, j: int|
            0 <= i < j < selected_hosts(toml, tokens, cands).len() ==> selected_hosts(
                toml,
                tokens,
                cands,
            )[i] != selected_hosts(toml, tokens, cands)[j],
    decreases cands.len(),
{
    if cands.len() == 0 {
    } else {
        let dl = cands.drop_last();
        assert(forall|i: int| 0 <= i < dl.len() ==> dl[i] == cands[i]);
        assert(forall|i: int, j: int| 0 <= i < j < dl.len() ==> dl[i] != dl[j]);
        lemma_selected_hosts_distinct(toml, tokens, dl);
        lemma_selected_hosts_props(toml, tokens, dl);
        let sdl = selected_hosts(toml, tokens, dl);
        let s = selected_hosts(toml, tokens, cands);
        assert forall|i: int, j: int| 0 <= i < j < s.len() implies s[i] != s[j] by {
            if j < sdl.len() {
                assert(s[i] == sdl[i]);
                assert(s[j] == sdl[j]);
            } else {
                assert(s[j] == cands.last());
                assert(s[i] == sdl[i]);
                let h = sdl[i];
                assert(dl.contains(h));
                let k = choose|k: int| 0 <= k < dl.len() && dl[k] == h;
                assert(cands[k] == h);
                assert(cands[cands.len() - 1] == cands.last());
            }
        }
    }
}

/// Whether the string `t` is an exclusion token.
pub fn is_excl_token(t: &String) -> (r: bool)
    ensures
        r == is_exclusion(t@),
{
    proof {
        reveal_strlit("!");
    }
    let n = t.as_str().unicode_len();
    n > 0 && t.as_str().get_char(0) == '!'
}

/// The name an exclusion token strips to.
pub fn strip_excl(t: &String) -> (r: String)
    requires
        is_exclusion(t@),
    ensures
        r@ == stripped(t@),
{
    let n = t.as_str().unicode_len();
    let rest = t.as_str().substring_char(1, n);
    assert(rest@ =~= t@.skip(1));
    String::from_str(rest)
}

/// Whether some token of this selection excludes the name `h`.
pub fn is_excluded_exec(tokens: &Vec<String>, h: &String) -> (r: bool)
    ensures
        r == is_excluded(str_views(tokens@), h@),
{
    let n = tokens.len();
    let mut i: usize = 0;
    while i < n
        invariant
            n == tokens@.len(),
            i <= n,
            forall|j: int|
                0 <= j < i ==> !(is_exclusion(str_views(tokens@)[j]) && stripped(
                    str_views(tokens@)[j],
                ) == h@),
        decreases n - i,
    {
        if is_excl_token(&tokens[i]) {
            let name = strip_excl(&tokens[i]);
            if name == *h {
                assert(is_exclusion(str_views(tokens@)[i as int]));
                assert(stripped(str_views(tokens@)[i as int]) == h@);
                return true;
            }
        }
        i += 1;
    }
    false
}

/// Whether some string of `v` views to the same name as `x`.
pub fn contains_name(v: &Vec<String>, x: &String) -> (r: bool)
    ensures
        r == str_views(v@).contains(x@),
{
    let n = v.len();
    let mut i: usize = 0;
    while i < n
        invariant
            n == v@.len(),
            i <= n,
            forall|j: int| 0 <= j < i ==> str_views(v@)[j] != x@,
        decreases n - i,
    {
        if v[i] == *x {
            assert(str_views(v@)[i as int] == x@);
            return true;
        }
        i += 1;
    }
    false
}

/// Resolve the host tokens of one selection: the surviving host names in
/// first-occurrence order, and the unknown names that were dropped with a
/// warning.
pub fn resolve_hosts(toml: &MusshToml, tokens: &Vec<String>) -> (r: (Vec<String>, Vec<String>))
    ensures
        str_views(r.0@) == resolve_hosts_spec(*toml, str_views(tokens@)),
        str_views(r.1@) == unknown_hosts_spec(*toml, str_views(tokens@)),
{
    let ghost gtokens = str_views(tokens@);
    // Expand the positive tokens against the groups.
    let mut expanded: Vec<String> = Vec::new();
    let n = tokens.len();
    let mut i: usize = 0;
    while i < n
        invariant
            n == tokens@.len(),
            i <= n,
            gtokens == str_views(tokens@),
            str_views(expanded@) == expand_tokens(toml.hostlist@, gtokens.take(i as int)),
        decreases n - i,
    {
        let ghost pre = str_views(expanded@);
        proof {
            assert(gtokens.take(i + 1).drop_last() =~= gtokens.take(i as int));
            assert(gtokens.take(i + 1).last() == gtokens[i as int]);
        }
        if !is_excl_token(&tokens[i]) {
            match assoc_get(&toml.hostlist, &tokens[i]) {
                Some(g) => {
                    let m = g.hostnames.len();
                    let mut j: usize = 0;
                    while j < m
                        invariant
                            m == g.hostnames@.len(),
                            j <= m,
                            str_views(expanded@) == pre + str_views(g.hostnames@).take(j as int),
                        decreases m - j,
                    {
                        proof {
                            assert(str_views(g.hostnames@).take(j + 1) =~= str_views(
                                g.hostnames@,
                            ).take(j as int).push(g.hostnames@[j as int]@));
                            assert((pre + str_views(g.hostnames@).take(j as int)).push(
                                g.hostnames@[j as int]@,
                            ) =~= pre + str_views(g.hostnames@).take(j + 1));
                        }
                        expanded.push(g.hostnames[j].clone());
                        proof {
                            assert(str_views(expanded@) =~= pre + str_views(g.hostnames@).take(
                                j + 1,
                            ));
                        }
                        j += 1;
                    }
                    proof {
                        assert(str_views(g.hostnames@).take(m as int) =~= str_views(g.hostnames@));
                        assert(expand_token(toml.hostlist@, gtokens[i as int]) == str_views(
                            g.hostnames@,
                        ));
                        assert(str_views(expanded@) =~= expand_tokens(
                            toml.hostlist@,
                            gtokens.take(i + 1),
                        ));
                    }
                },
                None => {
                    expanded.push(tokens[i].clone());
                    proof {
                        assert(expand_token(toml.hostlist@, gtokens[i as int]) =~= seq![
                            gtokens[i as int],
                        ]);
                        assert(str_views(expanded@) =~= pre + expand_token(
                            toml.hostlist@,
                            gtokens[i as int],
                        ));
                    }
                },
            }
        } else {
            proof {
                assert(str_views(expanded@) =~= expand_tokens(
                    toml.hostlist@,
                    gtokens.take(i + 1),
                ));
            }
        }
        i += 1;
    }
    proof {
        assert(gtokens.take(n as int) =~= gtokens);
    }

    // Collapse duplicates to their first occurrence.
    let mut deduped: Vec<String> = Vec::new();
    let en = expanded.len();
    let mut i2: usize = 0;
    while i2 < en
        invariant
            en == expanded@.len(),
            i2 <= en,
            str_views(deduped@) == dedup_first(str_views(expanded@).take(i2 as int)),
        decreases en - i2,
    {
        let ghost ex = str_views(expanded@);
        proof {
            assert(ex.take(i2 + 1).drop_last() =~= ex.take(i2 as int));
            assert(ex.take(i2 + 1).last() == ex[i2 as int]);
            lemma_dedup_membership(ex.take(i2 as int), ex[i2 as int]);
        }
        let seen = contains_name(&deduped, &expanded[i2]);
        if !seen {
            deduped.push(expanded[i2].clone());
            proof {
                assert(str_views(deduped@) =~= dedup_first(ex.take(i2 as int)).push(
                    ex[i2 as int],
                ));
                assert(dedup_first(ex.take(i2 + 1)) =~= dedup_first(ex.take(i2 as int)).push(
                    ex[i2 as int],
                ));
            }
        } else {
            proof {
                assert(dedup_first(ex.take(i2 + 1)) =~= dedup_first(ex.take(i2 as int)));
            }
        }
        i2 += 1;
    }
    proof {
        assert(str_views(expanded@).take(en as int) =~= str_views(expanded@));
    }

    // Keep what is neither excluded nor unconfigured; warn about the unknown.
    let mut hosts: Vec<String> = Vec::new();
    let mut unknown: Vec<String> = Vec::new();
    let dn = deduped.len();
    let mut i3: usize = 0;
    let ghost cands = str_views(deduped@);
    while i3 < dn
        invariant
            dn == deduped@.len(),
            i3 <= dn,
            cands == str_views(deduped@),
            str_views(hosts@) == selected_hosts(*toml, gtokens, cands.take(i3 as int)),
            str_views(unknown@) == unknown_hosts(*toml, gtokens, cands.take(i3 as int)),
            gtokens == str_views(tokens@),
        decreases dn - i3,
    {
        proof {
            assert(cands.take(i3 + 1).drop_last() =~= cands.take(i3 as int));
            assert(cands.take(i3 + 1).last() == cands[i3 as int]);
        }
        let excl = is_excluded_exec(tokens, &deduped[i3]);
        if !excl {
            match assoc_get(&toml.hosts, &deduped[i3]) {
                Some(_) => {
                    hosts.push(deduped[i3].clone());
                    proof {
                        assert(str_views(hosts@) =~= selected_hosts(
                            *toml,
                            gtokens,
                            cands.take(i3 + 1),
                        ));
                        assert(str_views(unknown@) =~= unknown_hosts(
                            *toml,
                            gtokens,
                            cands.take(i3 + 1),
                        ));
                    }
                },
                None => {
                    unknown.push(deduped[i3].clone());
                    proof {
                        assert(str_views(hosts@) =~= selected_hosts(
                            *toml,
                            gtokens,
                            cands.take(i3 + 1),
                        ));
                        assert(str_views(unknown@) =~= unknown_hosts(
                            *toml,
                            gtokens,
                            cands.take(i3 + 1),
                        ));
                    }
                },
            }
        } else {
            proof {
                assert(str_views(hosts@) =~= selected_hosts(*toml, gtokens, cands.take(i3 + 1)));
                assert(str_views(unknown@) =~= unknown_hosts(*toml, gtokens, cands.take(i3 + 1)));
            }
        }
        i3 += 1;
    }
    proof {
        assert(cands.take(dn as int) =~= cands);
    }
    (hosts, unknown)
}

/// One command of a plan: its configured name and the string that will
/// actually run.
#[derive(Clone, Debug, PartialEq, Eq)]
pub struct PlanCommand {
    /// The command name the operator asked for.
    pub name: String,
    /// The effective shell string, after alias substitution.
    pub cmd: String,
}

/// One host of a plan and its ordered command list.
#[derive(Clone, Debug, PartialEq, Eq)]
pub struct PlanEntry {
    /// The host name.
    pub host: String,
    /// The commands to run on this host, in order.
    pub cmds: Vec<PlanCommand>,
}

/// An execution plan: the sync cohort, which runs to completion first, and
/// the remaining hosts.
#[derive(Clone, Debug, PartialEq, Eq)]
pub struct Plan {
    /// The sync cohort, in resolution order.
    pub sync: Vec<PlanEntry>,
    /// The remaining hosts, in resolution order.
    pub rest: Vec<PlanEntry>,
}

/// What the operator asked for on the command line.
#[derive(Clone, Debug, PartialEq, Eq)]
pub struct SelectionRequest {
    /// Host and group tokens for the main selection; `!name` excludes.
    pub hosts: Vec<String>,
    /// Command name tokens for the main selection.
    pub commands: Vec<String>,
    /// Host and group tokens for the sync cohort.
    pub sync_hosts: Vec<String>,
    /// Command name tokens for the sync cohort.
    pub sync_commands: Vec<String>,
    /// Serialize the second phase host by host.
    pub sync_mode: bool,
    /// Plan only: produce no outcomes and touch nothing.
    pub dry_run: bool,
}

/// The unknown names each selection dropped with a warning.
#[derive(Clone, Debug, PartialEq, Eq)]
pub struct PlanWarnings {
    /// Unknown host names from the main selection.
    pub unknown_hosts: Vec<String>,
    /// Unknown command names from the main selection.
    pub unknown_commands: Vec<String>,
    /// Unknown host names from the sync selection.
    pub unknown_sync_hosts: Vec<String>,
    /// Unknown command names from the sync selection.
    pub unknown_sync_commands: Vec<String>,
}

/// The `(name, string)` views of a command list.
pub open spec fn cmd_views(s: Seq<PlanCommand>) -> Seq<(Seq<char>, Seq<char>)> {
    s.map_values(|c: PlanCommand| (c.name@, c.cmd@))
}

/// The `(host, commands)` views of a list of plan entries.
pub open spec fn entries_view(s: Seq<PlanEntry>) -> Seq<(Seq<char>, Seq<(Seq<char>, Seq<char>)>)> {
    s.map_values(|e: PlanEntry| (e.host@, cmd_views(e.cmds@)))
}

/// The nominal command sequence of a selection: each token that names a
/// configured command yields that command, in token order; the rest are
/// dropped.
pub open spec fn resolve_commands_spec(toml: MusshToml, tokens: Seq<Seq<char>>) -> Seq<
    (Seq<char>, Seq<char>),
>
    decreases tokens.len(),
{
    if tokens.len() == 0 {
        Seq::empty()
    } else {
        resolve_commands_spec(toml, tokens.drop_last()) + (match lookup(toml.cmd@, tokens.last()) {
            Some(c) => seq![(tokens.last(), c.command@)],
            None => Seq::empty(),
        })
    }
}

/// The command tokens of a selection that name no configured command.
pub open spec fn unknown_commands_spec(toml: MusshToml, tokens: Seq<Seq<char>>) -> Seq<Seq<char>>
    decreases tokens.len(),
{
    if tokens.len() == 0 {
        Seq::empty()
    } else {
        unknown_commands_spec(toml, tokens.drop_last()) + (if has_key(toml.cmd@, tokens.last()) {
            Seq::empty()
        } else {
            seq![tokens.last()]
        })
    }
}

/// Resolve the command tokens of one selection: the nominal command sequence
/// and the unknown names that were dropped with a warning.
pub fn resolve_commands(toml: &MusshToml, tokens: &Vec<String>) -> (r: (
    Vec<PlanCommand>,
    Vec<String>,
))
    ensures
        cmd_views(r.0@) == resolve_commands_spec(*toml, str_views(tokens@)),
        str_views(r.1@) == unknown_commands_spec(*toml, str_views(tokens@)),
{
    let ghost gtokens = str_views(tokens@);
    let mut cmds: Vec<PlanCommand> = Vec::new();
    let mut unknown: Vec<String> = Vec::new();
    let n = tokens.len();
    let mut i: usize = 0;
    while i < n
        invariant
            n == tokens@.len(),
            i <= n,
            gtokens == str_views(tokens@),
            cmd_views(cmds@) == resolve_commands_spec(*toml, gtokens.take(i as int)),
            str_views(unknown@) == unknown_commands_spec(*toml, gtokens.take(i as int)),
        decreases n - i,
    {
        proof {
            assert(gtokens.take(i + 1).drop_last() =~= gtokens.take(i as int));
            assert(gtokens.take(i + 1).last() == gtokens[i as int]);
        }
        match assoc_get(&toml.cmd, &tokens[i]) {
            Some(c) => {
                cmds.push(PlanCommand { name: tokens[i].clone(), cmd: c.command.clone() });
                proof {
                    assert(cmd_views(cmds@) =~= resolve_commands_spec(*toml, gtokens.take(i + 1)));
                    assert(str_views(unknown@) =~= unknown_commands_spec(
                        *toml,
                        gtokens.take(i + 1),
                    ));
                }
            },
            None => {
                unknown.push(tokens[i].clone());
                proof {
                    assert(cmd_views(cmds@) =~= resolve_commands_spec(*toml, gtokens.take(i + 1)));
                    assert(str_views(unknown@) =~= unknown_commands_spec(
                        *toml,
                        gtokens.take(i + 1),
                    ));
                }
            },
        }
        i += 1;
    }
    proof {
        assert(gtokens.take(n as int) =~= gtokens);
    }
    (cmds, unknown)
}

/// The command name the first matching alias substitutes in for `name`, if
/// this host declares one.
pub open spec fn first_alias(aliases: Seq<Alias>, name: Seq<char>) -> Option<Seq<char>>
    decreases aliases.len(),
{
    if aliases.len() == 0 {
        None
    } else if aliases[0].aliasfor@ == name {
        Some(aliases[0].command@)
    } else {
        first_alias(aliases.drop_first(), name)
    }
}

/// Scanning past non-matching aliases does not change the first match.
pub proof fn lemma_first_alias_prefix(aliases: Seq<Alias>, name: Seq<char>, i: int)
    requires
        0 <= i <= aliases.len(),
        forall|j: int| 0 <= j < i ==> aliases[j].aliasfor@ != name,
    ensures
        first_alias(aliases, name) == first_alias(aliases.skip(i), name),
    decreases i,
{
    if i == 0 {
        assert(aliases.skip(0) =~= aliases);
    } else {
        lemma_first_alias_prefix(aliases, name, i - 1);
        assert(aliases.skip(i - 1).drop_first() =~= aliases.skip(i));
        assert(aliases.skip(i - 1)[0] == aliases[i - 1]);
    }
}

/// The string host `host` actually runs for command `name` whose configured
/// string is `nominal`: the string of the aliased command when the host's
/// first matching alias names a configured command, and `nominal` otherwise.
pub open spec fn effective_command_spec(
    toml: MusshToml,
    host: Host,
    name: Seq<char>,
    nominal: Seq<char>,
) -> Seq<char> {
    match first_alias(host.alias@, name) {
        Some(a) => match lookup(toml.cmd@, a) {
            Some(c) => c.command@,
            None => nominal,
        },
        None => nominal,
    }
}

/// The effective string for one command on one host.
pub fn effective_command(toml: &MusshToml, host: &Host, name: &String, nominal: &String) -> (r:
    String)
    ensures
        r@ == effective_command_spec(*toml, *host, name@, nominal@),
{
    let n = host.alias.len();
    let mut i: usize = 0;
    while i < n
        invariant
            n == host.alias@.len(),
            i <= n,
            forall|j: int| 0 <= j < i ==> host.alias@[j].aliasfor@ != name@,
        decreases n - i,
    {
        if host.alias[i].aliasfor == *name {
            proof {
                lemma_first_alias_prefix(host.alias@, name@, i as int);
                assert(host.alias@.skip(i as int)[0] == host.alias@[i as int]);
            }
            match assoc_get(&toml.cmd, &host.alias[i].command) {
                Some(c) => {
                    return c.command.clone();
                },
                None => {
                    return nominal.clone();
                },
            }
        }
        i += 1;
    }
    proof {
        lemma_first_alias_prefix(host.alias@, name@, n as int);
        assert(host.alias@.skip(n as int) =~= Seq::<Alias>::empty());
    }
    nominal.clone()
}

/// The command list for one host: the nominal sequence with each string
/// replaced by its effective string on that host.  Names are untouched.
pub open spec fn host_commands_spec(
    toml: MusshToml,
    host: Host,
    nominal: Seq<(Seq<char>, Seq<char>)>,
) -> Seq<(Seq<char>, Seq<char>)> {
    nominal.map_values(
        |p: (Seq<char>, Seq<char>)| (p.0, effective_command_spec(toml, host, p.0, p.1)),
    )
}

/// Build the command list for one host from the nominal sequence.
pub fn host_commands(toml: &MusshToml, host: &Host, nominal: &Vec<PlanCommand>) -> (r: Vec<
    PlanCommand,
>)
    ensures
        cmd_views(r@) == host_commands_spec(*toml, *host, cmd_views(nominal@)),
{
    let mut out: Vec<PlanCommand> = Vec::new();
    let n = nominal.len();
    let mut i: usize = 0;
    while i < n
        invariant
            n == nominal@.len(),
            i <= n,
            out@.len() == i,
            forall|j: int|
                0 <= j < i ==> out@[j].name@ == nominal@[j].name@ && out@[j].cmd@
                    == effective_command_spec(*toml, *host, nominal@[j].name@, nominal@[j].cmd@),
        decreases n - i,
    {
        let eff = effective_command(toml, host, &nominal[i].name, &nominal[i].cmd);
        out.push(PlanCommand { name: nominal[i].name.clone(), cmd: eff });
        i += 1;
    }
    proof {
        assert(cmd_views(out@) =~= host_commands_spec(*toml, *host, cmd_views(nominal@)));
    }
    out
}

/// The names of a command list.
pub open spec fn names_of(cmds: Seq<(Seq<char>, Seq<char>)>) -> Seq<Seq<char>> {
    cmds.map_values(|p: (Seq<char>, Seq<char>)| p.0)
}

/// The commands whose name is not among `names`, in order.
pub open spec fn minus_names(
    cmds: Seq<(Seq<char>, Seq<char>)>,
    names: Seq<Seq<char>>,
) -> Seq<(Seq<char>, Seq<char>)>
    decreases cmds.len(),
{
    if cmds.len() == 0 {
        Seq::empty()
    } else {
        minus_names(cmds.drop_last(), names) + (if names.contains(cmds.last().0) {
            Seq::empty()
        } else {
            seq![cmds.last()]
        })
    }
}

/// Whether some command of `v` carries the name `x`.
pub fn contains_cmd_name(v: &Vec<PlanCommand>, x: &String) -> (r: bool)
    ensures
        r == names_of(cmd_views(v@)).contains(x@),
{
    let n = v.len();
    let mut i: usize = 0;
    while i < n
        invariant
            n == v@.len(),
            i <= n,
            forall|j: int| 0 <= j < i ==> names_of(cmd_views(v@))[j] != x@,
        decreases n - i,
    {
        if v[i].name == *x {
            assert(names_of(cmd_views(v@))[i as int] == x@);
            return true;
        }
        i += 1;
    }
    false
}

/// Drop from `cmds` every command whose name the sync phase already runs.
pub fn minus_sync(cmds: &Vec<PlanCommand>, sync_cmds: &Vec<PlanCommand>) -> (r: Vec<PlanCommand>)
    ensures
        cmd_views(r@) == minus_names(cmd_views(cmds@), names_of(cmd_views(sync_cmds@))),
{
    let ghost gnames = names_of(cmd_views(sync_cmds@));
    let mut out: Vec<PlanCommand> = Vec::new();
    let n = cmds.len();
    let mut i: usize = 0;
    while i < n
        invariant
            n == cmds@.len(),
            i <= n,
            gnames == names_of(cmd_views(sync_cmds@)),
            cmd_views(out@) == minus_names(cmd_views(cmds@).take(i as int), gnames),
        decreases n - i,
    {
        let ghost gc = cmd_views(cmds@);
        proof {
            assert(gc.take(i + 1).drop_last() =~= gc.take(i as int));
            assert(gc.take(i + 1).last() == gc[i as int]);
        }
        let dup = contains_cmd_name(sync_cmds, &cmds[i].name);
        if !dup {
            out.push(PlanCommand { name: cmds[i].name.clone(), cmd: cmds[i].cmd.clone() });
            proof {
                assert(cmd_views(out@) =~= minus_names(gc.take(i + 1), gnames));
            }
        } else {
            proof {
                assert(cmd_views(out@) =~= minus_names(gc.take(i + 1), gnames));
            }
        }
        i += 1;
    }
    proof {
        assert(cmd_views(cmds@).take(n as int) =~= cmd_views(cmds@));
    }
    out
}

/// The configured record of a resolved host.
pub open spec fn host_record(toml: MusshToml, h: Seq<char>) -> Host {
    lookup(toml.hosts@, h).unwrap()
}

/// The resolved hosts of the main selection.
pub open spec fn main_hosts_resolved(toml: MusshToml, req: SelectionRequest) -> Seq<Seq<char>> {
    resolve_hosts_spec(toml, str_views(req.hosts@))
}

/// The resolved hosts of the sync selection.
pub open spec fn sync_hosts_resolved(toml: MusshToml, req: SelectionRequest) -> Seq<Seq<char>> {
    resolve_hosts_spec(toml, str_views(req.sync_hosts@))
}

/// The nominal command sequence of the main selection.
pub open spec fn main_nominal(toml: MusshToml, req: SelectionRequest) -> Seq<
    (Seq<char>, Seq<char>),
> {
    resolve_commands_spec(toml, str_views(req.commands@))
}

/// The nominal command sequence of the sync selection.
pub open spec fn sync_nominal(toml: MusshToml, req: SelectionRequest) -> Seq<
    (Seq<char>, Seq<char>),
> {
    resolve_commands_spec(toml, str_views(req.sync_commands@))
}

/// The sync cohort of the plan: each resolved sync host with the sync
/// commands, aliases applied.
pub open spec fn sync_plan_spec(toml: MusshToml, req: SelectionRequest) -> Seq<
    (Seq<char>, Seq<(Seq<char>, Seq<char>)>),
> {
    sync_hosts_resolved(toml, req).map_values(
        |h: Seq<char>| (h, host_commands_spec(toml, host_record(toml, h), sync_nominal(toml, req))),
    )
}

/// The second-phase commands for one resolved main host: the main commands,
/// aliases applied, minus any command name the sync phase already runs on
/// this host.
pub open spec fn rest_cmds_for(toml: MusshToml, req: SelectionRequest, h: Seq<char>) -> Seq<
    (Seq<char>, Seq<char>),
> {
    let prim = host_commands_spec(toml, host_record(toml, h), main_nominal(toml, req));
    if sync_hosts_resolved(toml, req).contains(h) {
        minus_names(prim, names_of(sync_nominal(toml, req)))
    } else {
        prim
    }
}

/// The second phase of the plan.
pub open spec fn rest_plan_spec(toml: MusshToml, req: SelectionRequest) -> Seq<
    (Seq<char>, Seq<(Seq<char>, Seq<char>)>),
> {
    main_hosts_resolved(toml, req).map_values(|h: Seq<char>| (h, rest_cmds_for(toml, req, h)))
}

/// Whether every entry of a phase carries an empty command list.
pub open spec fn all_cmds_empty(entries: Seq<(Seq<char>, Seq<(Seq<char>, Seq<char>)>)>) -> bool {
    forall|i: int| 0 <= i < entries.len() ==> #[trigger] entries[i].1.len() == 0
}

/// Whether the plan holds at least one (host, command) pair.
pub open spec fn plan_has_pair(toml: MusshToml, req: SelectionRequest) -> bool {
    !(all_cmds_empty(sync_plan_spec(toml, req)) && all_cmds_empty(rest_plan_spec(toml, req)))
}

/// Whether some entry of this phase carries a command.
fn any_pair(entries: &Vec<PlanEntry>) -> (r: bool)
    ensures
        r == !all_cmds_empty(entries_view(entries@)),
{
    let n = entries.len();
    let mut i: usize = 0;
    while i < n
        invariant
            n == entries@.len(),
            i <= n,
            forall|j: int| 0 <= j < i ==> #[trigger] entries_view(entries@)[j].1.len() == 0,
        decreases n - i,
    {
        if entries[i].cmds.len() > 0 {
            assert(entries_view(entries@)[i as int].1.len() > 0);
            return true;
        }
        assert(entries_view(entries@)[i as int].1.len() == 0);
        i += 1;
    }
    false
}

/// Resolve a request against a configuration into an execution plan.
///
/// The sync cohort runs the sync commands; the remaining hosts run the main
/// commands, minus any command name their sync phase already runs.  Unknown
/// host and command names are returned as warnings.  When no (host, command)
/// pair survives at all the plan is refused with `SelectionEmpty`.
pub fn build_plan(toml: &MusshToml, req: &SelectionRequest) -> (r: (
    Result<Plan, MusshErrKind>,
    PlanWarnings,
))
    ensures
        r.0 matches Ok(p) ==> {
            &&& entries_view(p.sync@) == sync_plan_spec(*toml, *req)
            &&& entries_view(p.rest@) == rest_plan_spec(*toml, *req)
            &&& plan_has_pair(*toml, *req)
        },
        r.0 matches Err(k) ==> k == MusshErrKind::SelectionEmpty && !plan_has_pair(*toml, *req),
        str_views(r.1.unknown_hosts@) == unknown_hosts_spec(*toml, str_views(req.hosts@)),
        str_views(r.1.unknown_commands@) == unknown_commands_spec(*toml, str_views(req.commands@)),
        str_views(r.1.unknown_sync_hosts@) == unknown_hosts_spec(
            *toml,
            str_views(req.sync_hosts@),
        ),
        str_views(r.1.unknown_sync_commands@) == unknown_commands_spec(
            *toml,
            str_views(req.sync_commands@),
        ),
{
    let (main_hosts, unk_hosts) = resolve_hosts(toml, &req.hosts);
    let (sync_hosts, unk_sync_hosts) = resolve_hosts(toml, &req.sync_hosts);
    let (main_cmds, unk_cmds) = resolve_commands(toml, &req.commands);
    let (sync_cmds, unk_sync_cmds) = resolve_commands(toml, &req.sync_commands);

    proof {
        lemma_selected_hosts_props(
            *toml,
            str_views(req.sync_hosts@),
            dedup_first(expand_tokens(toml.hostlist@, str_views(req.sync_hosts@))),
        );
        lemma_selected_hosts_props(
            *toml,
            str_views(req.hosts@),
            dedup_first(expand_tokens(toml.hostlist@, str_views(req.hosts@))),
        );
    }

    // Phase 1: the sync cohort.
    let mut sync_entries: Vec<PlanEntry> = Vec::new();
    let sn = sync_hosts.len();
    let mut i: usize = 0;
    while i < sn
        invariant
            sn == sync_hosts@.len(),
            str_views(sync_hosts@) == sync_hosts_resolved(*toml, *req),
            cmd_views(sync_cmds@) == sync_nominal(*toml, *req),
            i <= sn,
            entries_view(sync_entries@) == sync_plan_spec(*toml, *req).take(i as int),
            forall|j: int|
                0 <= j < sn ==> has_key(
                    toml.hosts@,
                    #[trigger] sync_hosts_resolved(*toml, *req)[j],
                ),
        decreases sn - i,
    {
        assert(has_key(toml.hosts@, sync_hosts_resolved(*toml, *req)[i as int]));
        let hr = match assoc_get(&toml.hosts, &sync_hosts[i]) {
            Some(h) => h,
            None => {
                proof {
                    assert(false);
                }
                vstd::pervasive::unreached()
            },
        };
        proof {
            let h = sync_hosts_resolved(*toml, *req)[i as int];
            assert(str_views(sync_hosts@)[i as int] == sync_hosts@[i as int]@);
            assert(lookup(toml.hosts@, h) == Some(*hr));
            assert(host_record(*toml, h) == *hr);
        }
        let cmds = host_commands(toml, hr, &sync_cmds);
        let ghost pre = sync_entries@;
        sync_entries.push(PlanEntry { host: sync_hosts[i].clone(), cmds });
        proof {
            assert(entries_view(pre).len() == pre.len());
            assert(pre.len() == i);
            assert(sync_entries@.len() == i + 1);
            let e = sync_entries@[i as int];
            assert(e.host@ == sync_hosts@[i as int]@);
            assert(entries_view(sync_entries@)[i as int] == (e.host@, cmd_views(e.cmds@)));
            assert(cmd_views(e.cmds@) == host_commands_spec(
                *toml,
                *hr,
                cmd_views(sync_cmds@),
            ));
            assert(sync_plan_spec(*toml, *req)[i as int] == (
                sync_hosts_resolved(*toml, *req)[i as int],
                host_commands_spec(
                    *toml,
                    host_record(*toml, sync_hosts_resolved(*toml, *req)[i as int]),
                    sync_nominal(*toml, *req),
                ),
            ));
            assert(entries_view(sync_entries@) =~= sync_plan_spec(*toml, *req).take(i + 1));
        }
        i += 1;
    }
    proof {
        assert(sync_plan_spec(*toml, *req).take(sn as int) =~= sync_plan_spec(*toml, *req));
    }

    // Phase 2: the remaining hosts.
    let mut rest_entries: Vec<PlanEntry> = Vec::new();
    let mn = main_hosts.len();
    let mut k: usize = 0;
    while k < mn
        invariant
            mn == main_hosts@.len(),
            str_views(main_hosts@) == main_hosts_resolved(*toml, *req),
            str_views(sync_hosts@) == sync_hosts_resolved(*toml, *req),
            cmd_views(main_cmds@) == main_nominal(*toml, *req),
            cmd_views(sync_cmds@) == sync_nominal(*toml, *req),
            k <= mn,
            entries_view(rest_entries@) == rest_plan_spec(*toml, *req).take(k as int),
            forall|j: int|
                0 <= j < mn ==> has_key(
                    toml.hosts@,
                    #[trigger] main_hosts_resolved(*toml, *req)[j],
                ),
        decreases mn - k,
    {
        assert(has_key(toml.hosts@, main_hosts_resolved(*toml, *req)[k as int]));
        let hr = match assoc_get(&toml.hosts, &main_hosts[k]) {
            Some(h) => h,
            None => {
                proof {
                    assert(false);
                }
                vstd::pervasive::unreached()
            },
        };
        proof {
            let h = main_hosts_resolved(*toml, *req)[k as int];
            assert(str_views(main_hosts@)[k as int] == main_hosts@[k as int]@);
            assert(lookup(toml.hosts@, h) == Some(*hr));
            assert(host_record(*toml, h) == *hr);
        }
        let prim = host_commands(toml, hr, &main_cmds);
        let in_sync = contains_name(&sync_hosts, &main_hosts[k]);
        let cmds = if in_sync {
            minus_sync(&prim, &sync_cmds)
        } else {
            prim
        };
        proof {
            let h = main_hosts_resolved(*toml, *req)[k as int];
            assert(cmd_views(cmds@) == rest_cmds_for(*toml, *req, h));
        }
        let ghost pre = rest_entries@;
        rest_entries.push(PlanEntry { host: main_hosts[k].clone(), cmds });
        proof {
            assert(entries_view(pre).len() == pre.len());
            assert(pre.len() == k);
            assert(rest_entries@.len() == k + 1);
            let e = rest_entries@[k as int];
            assert(e.host@ == main_hosts@[k as int]@);
            assert(entries_view(rest_entries@)[k as int] == (e.host@, cmd_views(e.cmds@)));
            assert(rest_plan_spec(*toml, *req)[k as int] == (
                main_hosts_resolved(*toml, *req)[k as int],
                rest_cmds_for(*toml, *req, main_hosts_resolved(*toml, *req)[k as int]),
            ));
            assert(entries_view(rest_entries@) =~= rest_plan_spec(*toml, *req).take(k + 1));
        }
        k += 1;
    }
    proof {
        assert(rest_plan_spec(*toml, *req).take(mn as int) =~= rest_plan_spec(*toml, *req));
    }

    let warnings = PlanWarnings {
        unknown_hosts: unk_hosts,
        unknown_commands: unk_cmds,
        unknown_sync_hosts: unk_sync_hosts,
        unknown_sync_commands: unk_sync_cmds,
    };

    let has_sync_pair = any_pair(&sync_entries);
    let has_rest_pair = any_pair(&rest_entries);
    if !has_sync_pair && !has_rest_pair {
        (Err(MusshErrKind::SelectionEmpty), warnings)
    } else {
        (Ok(Plan { sync: sync_entries, rest: rest_entries }), warnings)
    }
}

/// Exclusions are total: a name struck out by an active `!` token of a
/// selection never appears among that selection's resolved hosts.
pub proof fn lemma_exclusions_total(toml: MusshToml, tokens: Seq<Seq<char>>, x: Seq<char>)
    requires
        is_excluded(tokens, x),
    ensures
        !resolve_hosts_spec(toml, tokens).contains(x),
{
    let cands = dedup_first(expand_tokens(toml.hostlist@, tokens));
    lemma_selected_hosts_props(toml, tokens, cands);
    if resolve_hosts_spec(toml, tokens).contains(x) {
        let i = choose|i: int|
            0 <= i < resolve_hosts_spec(toml, tokens).len() && resolve_hosts_spec(toml, tokens)[i]
                == x;
        assert(!is_excluded(tokens, resolve_hosts_spec(toml, tokens)[i]));
    }
}

/// The hosts a selection resolves to are pairwise distinct, each configured,
/// and none excluded.
pub proof fn lemma_resolved_hosts_props(toml: MusshToml, tokens: Seq<Seq<char>>)
    ensures
        forall|i: int, j: int|
            0 <= i < j < resolve_hosts_spec(toml, tokens).len() ==> resolve_hosts_spec(
                toml,
                tokens,
            )[i] != resolve_hosts_spec(toml, tokens)[j],
        forall|i: int|
            0 <= i < resolve_hosts_spec(toml, tokens).len() ==> has_key(
                toml.hosts@,
                #[trigger] resolve_hosts_spec(toml, tokens)[i],
            ) && !is_excluded(tokens, resolve_hosts_spec(toml, tokens)[i]),
{
    let cands = dedup_first(expand_tokens(toml.hostlist@, tokens));
    lemma_dedup_distinct(expand_tokens(toml.hostlist@, tokens));
    lemma_selected_hosts_distinct(toml, tokens, cands);
    lemma_selected_hosts_props(toml, tokens, cands);
}

/// The nominal command sequence keeps the token names: with pairwise
/// distinct command tokens the resolved names are pairwise distinct, and
/// every resolved name is one of the tokens.
pub proof fn lemma_resolved_names(toml: MusshToml, tokens: Seq<Seq<char>>)
    requires
        forall|i: int, j: int| 0 <= i < j < tokens.len() ==> tokens[i] != tokens[j],
    ensures
        forall|i: int|
            0 <= i < resolve_commands_spec(toml, tokens).len() ==> tokens.contains(
                #[trigger] resolve_commands_spec(toml, tokens)[i].0,
            ),
        forall|i: int, j: int|
            0 <= i < j < resolve_commands_spec(toml, tokens).len() ==> resolve_commands_spec(
                toml,
                tokens,
            )[i].0 != resolve_commands_spec(toml, tokens)[j].0,
    decreases tokens.len(),
{
    if tokens.len() == 0 {
    } else {
        let dl = tokens.drop_last();
        assert(forall|i: int| 0 <= i < dl.len() ==> dl[i] == tokens[i]);
        lemma_resolved_names(toml, dl);
        let rdl = resolve_commands_spec(toml, dl);
        let r = resolve_commands_spec(toml, tokens);
        assert forall|i: int| 0 <= i < r.len() implies tokens.contains(#[trigger] r[i].0) by {
            if i < rdl.len() {
                assert(r[i] == rdl[i]);
                assert(dl.contains(rdl[i].0));
                let k = choose|k: int| 0 <= k < dl.len() && dl[k] == rdl[i].0;
                assert(tokens[k] == rdl[i].0);
            } else {
                assert(r[i].0 == tokens.last());
                assert(tokens[tokens.len() - 1] == tokens.last());
            }
        }
        assert forall|i: int, j: int| 0 <= i < j < r.len() implies r[i].0 != r[j].0 by {
            if j < rdl.len() {
                assert(r[i] == rdl[i]);
                assert(r[j] == rdl[j]);
            } else {
                assert(r[j].0 == tokens.last());
                assert(r[i] == rdl[i]);
                assert(dl.contains(rdl[i].0));
                let k = choose|k: int| 0 <= k < dl.len() && dl[k] == rdl[i].0;
                assert(tokens[k] == rdl[i].0);
                assert(tokens[tokens.len() - 1] == tokens.last());
            }
        }
    }
}

/// Alias substitution keeps the command names: only the strings change.
pub proof fn lemma_host_commands_names(
    toml: MusshToml,
    host: Host,
    nominal: Seq<(Seq<char>, Seq<char>)>,
)
    ensures
        names_of(host_commands_spec(toml, host, nominal)) == names_of(nominal),
{
    assert(names_of(host_commands_spec(toml, host, nominal)) =~= names_of(nominal));
}

/// Every name that survives `minus_names` was a name of the input and is not
/// among the removed names.
pub proof fn lemma_minus_names_membership(
    cmds: Seq<(Seq<char>, Seq<char>)>,
    names: Seq<Seq<char>>,
)
    ensures
        forall|i: int|
            0 <= i < minus_names(cmds, names).len() ==> names_of(cmds).contains(
                #[trigger] minus_names(cmds, names)[i].0,
            ) && !names.contains(minus_names(cmds, names)[i].0),
    decreases cmds.len(),
{
    if cmds.len() == 0 {
    } else {
        let dl = cmds.drop_last();
        lemma_minus_names_membership(dl, names);
        let mdl = minus_names(dl, names);
        let m = minus_names(cmds, names);
        assert(forall|i: int| 0 <= i < dl.len() ==> dl[i] == cmds[i]);
        assert forall|i: int| 0 <= i < m.len() implies names_of(cmds).contains(
            #[trigger] m[i].0,
        ) && !names.contains(m[i].0) by {
            if i < mdl.len() {
                assert(m[i] == mdl[i]);
                assert(names_of(dl).contains(mdl[i].0));
                let k = choose|k: int| 0 <= k < names_of(dl).len() && names_of(dl)[k] == mdl[i].0;
                assert(names_of(cmds)[k] == mdl[i].0);
            } else {
                assert(m[i] == cmds.last());
                assert(names_of(cmds)[cmds.len() - 1] == cmds.last().0);
            }
        }
    }
}

/// `minus_names` keeps distinct names distinct.
pub proof fn lemma_minus_names_distinct(cmds: Seq<(Seq<char>, Seq<char>)>, names: Seq<Seq<char>>)
    requires
        forall|i: int, j: int|
            0 <= i < j < cmds.len() ==> #[trigger] cmds[i].0 != #[trigger] cmds[j].0,
    ensures
        forall|i: int, j: int|
            0 <= i < j < minus_names(cmds, names).len() ==> minus_names(cmds, names)[i].0
                != minus_names(cmds, names)[j].0,
    decreases cmds.len(),
{
    if cmds.len() == 0 {
    } else {
        let dl = cmds.drop_last();
        assert(forall|i: int| 0 <= i < dl.len() ==> dl[i] == cmds[i]);
        lemma_minus_names_distinct(dl, names);
        lemma_minus_names_membership(dl, names);
        let mdl = minus_names(dl, names);
        let m = minus_names(cmds, names);
        assert forall|i: int, j: int| 0 <= i < j < m.len() implies m[i].0 != m[j].0 by {
            if j < mdl.len() {
                assert(m[i] == mdl[i]);
                assert(m[j] == mdl[j]);
            } else {
                assert(m[j] == cmds.last());
                assert(m[i] == mdl[i]);
                assert(names_of(dl).contains(mdl[i].0));
                let k = choose|k: int| 0 <= k < names_of(dl).len() && names_of(dl)[k] == mdl[i].0;
                assert(dl[k].0 == mdl[i].0);
                assert(cmds[k].0 == mdl[i].0);
                assert(cmds[cmds.len() - 1].0 == cmds.last().0);
            }
        }
    }
}

/// The flattened `(host, command name)` pairs of one phase, in plan order.
pub open spec fn plan_pairs(entries: Seq<(Seq<char>, Seq<(Seq<char>, Seq<char>)>)>) -> Seq<
    (Seq<char>, Seq<char>),
>
    decreases entries.len(),
{
    if entries.len() == 0 {
        Seq::empty()
    } else {
        plan_pairs(entries.drop_last()) + entries.last().1.map_values(
            |c: (Seq<char>, Seq<char>)| (entries.last().0, c.0),
        )
    }
}

/// Which entry and which of its commands a flat pair index falls on.
pub open spec fn pair_entry_at(
    entries: Seq<(Seq<char>, Seq<(Seq<char>, Seq<char>)>)>,
    p: int,
) -> (int, int)
    decreases entries.len(),
{
    if entries.len() == 0 {
        (0, 0)
    } else if p < plan_pairs(entries.drop_last()).len() {
        pair_entry_at(entries.drop_last(), p)
    } else {
        (entries.len() - 1, p - plan_pairs(entries.drop_last()).len())
    }
}

/// The decomposition of a flat pair index: entry `i`, command `c`, standing
/// after the pairs of the entries before `i`.
pub proof fn lemma_pair_entry_at(entries: Seq<(Seq<char>, Seq<(Seq<char>, Seq<char>)>)>, p: int)
    requires
        0 <= p < plan_pairs(entries).len(),
    ensures
        ({
            let (i, c) = pair_entry_at(entries, p);
            &&& 0 <= i < entries.len()
            &&& 0 <= c < entries[i].1.len()
            &&& plan_pairs(entries)[p] == (entries[i].0, entries[i].1[c].0)
            &&& p == plan_pairs(entries.take(i)).len() + c
        }),
    decreases entries.len(),
{
    if entries.len() == 0 {
    } else {
        let dl = entries.drop_last();
        let pdl = plan_pairs(dl);
        if p < pdl.len() {
            lemma_pair_entry_at(dl, p);
            let (i, c) = pair_entry_at(dl, p);
            assert(dl[i] == entries[i]);
            assert(dl.take(i) =~= entries.take(i));
            assert(plan_pairs(entries)[p] == pdl[p]);
        } else {
            assert(entries.take(entries.len() - 1) =~= dl);
        }
    }
}

/// With pairwise distinct hosts and, within each entry, pairwise distinct
/// command names, no `(host, name)` pair stands twice in a phase.
pub proof fn lemma_plan_pairs_unique(entries: Seq<(Seq<char>, Seq<(Seq<char>, Seq<char>)>)>)
    requires
        forall|i: int, j: int| 0 <= i < j < entries.len() ==> entries[i].0 != entries[j].0,
        forall|e: int, c1: int, c2: int|
            0 <= e < entries.len() && 0 <= c1 < c2 < entries[e].1.len() ==> entries[e].1[c1].0
                != entries[e].1[c2].0,
    ensures
        forall|p1: int, p2: int|
            0 <= p1 < p2 < plan_pairs(entries).len() ==> plan_pairs(entries)[p1] != plan_pairs(
                entries,
            )[p2],
{
    assert forall|p1: int, p2: int|
        0 <= p1 < p2 < plan_pairs(entries).len() implies plan_pairs(entries)[p1] != plan_pairs(
        entries,
    )[p2] by {
        lemma_pair_entry_at(entries, p1);
        lemma_pair_entry_at(entries, p2);
        let (i1, c1) = pair_entry_at(entries, p1);
        let (i2, c2) = pair_entry_at(entries, p2);
        if plan_pairs(entries)[p1] == plan_pairs(entries)[p2] {
            assert(entries[i1].0 == entries[i2].0);
            if i1 < i2 {
                assert(false);
            } else if i2 < i1 {
                assert(false);
            }
            assert(i1 == i2);
            assert(entries[i1].1[c1].0 == entries[i2].1[c2].0);
            if c1 < c2 {
                assert(false);
            } else if c2 < c1 {
                assert(false);
            }
            assert(p1 == p2);
            assert(false);
        }
    }
}

/// Whether `pr` is the `(host, name)` of some command of some entry.
pub open spec fn pair_in_entries(
    entries: Seq<(Seq<char>, Seq<(Seq<char>, Seq<char>)>)>,
    pr: (Seq<char>, Seq<char>),
) -> bool {
    exists|i: int, c: int|
        0 <= i < entries.len() && 0 <= c < entries[i].1.len() && pr == (
            entries[i].0,
            #[trigger] entries[i].1[c].0,
        )
}

/// Two tables whose entries carry the same names in the same order bind the
/// same names; where the values also agree, the lookups agree.
pub proof fn lemma_lookup_agree_except<V>(
    a: Seq<(String, V)>,
    b: Seq<(String, V)>,
    except: Seq<char>,
    key: Seq<char>,
)
    requires
        a.len() == b.len(),
        forall|i: int| 0 <= i < a.len() ==> (#[trigger] a[i]).0@ == b[i].0@,
        forall|i: int| 0 <= i < a.len() && (#[trigger] a[i]).0@ != except ==> a[i].1 == b[i].1,
        key != except,
    ensures
        lookup(a, key) == lookup(b, key),
    decreases a.len(),
{
    if a.len() == 0 {
    } else {
        if a[0].0@ == key {
        } else {
            let ta = a.drop_first();
            let tb = b.drop_first();
            assert(forall|i: int| 0 <= i < ta.len() ==> (#[trigger] ta[i]) == a[i + 1]);
            assert(forall|i: int| 0 <= i < tb.len() ==> (#[trigger] tb[i]) == b[i + 1]);
            lemma_lookup_agree_except(ta, tb, except, key);
        }
    }
}

/// Tables with equal names bind the same keys.
pub proof fn lemma_has_key_agree<V>(a: Seq<(String, V)>, b: Seq<(String, V)>, key: Seq<char>)
    requires
        a.len() == b.len(),
        forall|i: int| 0 <= i < a.len() ==> (#[trigger] a[i]).0@ == b[i].0@,
    ensures
        has_key(a, key) == has_key(b, key),
    decreases a.len(),
{
    if a.len() == 0 {
    } else {
        if a[0].0@ == key {
        } else {
            let ta = a.drop_first();
            let tb = b.drop_first();
            assert(forall|i: int| 0 <= i < ta.len() ==> (#[trigger] ta[i]) == a[i + 1]);
            assert(forall|i: int| 0 <= i < tb.len() ==> (#[trigger] tb[i]) == b[i + 1]);
            lemma_has_key_agree(ta, tb, key);
        }
    }
}

/// Host selection sees only the groups and which host names are bound, so
/// two configurations that agree there resolve every selection alike.
pub proof fn lemma_selected_agree(
    t1: MusshToml,
    t2: MusshToml,
    tokens: Seq<Seq<char>>,
    cands: Seq<Seq<char>>,
)
    requires
        t1.hosts@.len() == t2.hosts@.len(),
        forall|i: int|
            0 <= i < t1.hosts@.len() ==> (#[trigger] t1.hosts@[i]).0@ == t2.hosts@[i].0@,
    ensures
        selected_hosts(t1, tokens, cands) == selected_hosts(t2, tokens, cands),
    decreases cands.len(),
{
    if cands.len() == 0 {
    } else {
        lemma_selected_agree(t1, t2, tokens, cands.drop_last());
        lemma_has_key_agree(t1.hosts@, t2.hosts@, cands.last());
    }
}

/// Command resolution sees only the command table.
pub proof fn lemma_resolve_commands_agree(t1: MusshToml, t2: MusshToml, tokens: Seq<Seq<char>>)
    requires
        t1.cmd == t2.cmd,
    ensures
        resolve_commands_spec(t1, tokens) == resolve_commands_spec(t2, tokens),
        unknown_commands_spec(t1, tokens) == unknown_commands_spec(t2, tokens),
    decreases tokens.len(),
{
    if tokens.len() == 0 {
    } else {
        lemma_resolve_commands_agree(t1, t2, tokens.drop_last());
    }
}

/// Building one host's command list sees only that host's record and the
/// command table.
pub proof fn lemma_host_commands_agree(
    t1: MusshToml,
    t2: MusshToml,
    host: Host,
    nominal: Seq<(Seq<char>, Seq<char>)>,
)
    requires
        t1.cmd == t2.cmd,
    ensures
        host_commands_spec(t1, host, nominal) == host_commands_spec(t2, host, nominal),
{
    assert(host_commands_spec(t1, host, nominal) =~= host_commands_spec(t2, host, nominal));
}

/// An alias is local to the host that declares it.
///
/// Change one host's record — its alias list included — and leave the
/// groups, the commands and every other host untouched: the plan keeps the
/// same hosts in the same order, and every entry of any other host is
/// unchanged, in both phases.  Only the changed host's own entries can
/// differ.
pub proof fn lemma_alias_local(
    t1: MusshToml,
    t2: MusshToml,
    req: SelectionRequest,
    hname: Seq<char>,
)
    requires
        t1.hostlist == t2.hostlist,
        t1.cmd == t2.cmd,
        t1.hosts@.len() == t2.hosts@.len(),
        forall|i: int|
            0 <= i < t1.hosts@.len() ==> (#[trigger] t1.hosts@[i]).0@ == t2.hosts@[i].0@,
        forall|i: int|
            0 <= i < t1.hosts@.len() && (#[trigger] t1.hosts@[i]).0@ != hname ==> t1.hosts@[i].1
                == t2.hosts@[i].1,
    ensures
        sync_plan_spec(t1, req).len() == sync_plan_spec(t2, req).len(),
        rest_plan_spec(t1, req).len() == rest_plan_spec(t2, req).len(),
        forall|i: int|
            0 <= i < sync_plan_spec(t1, req).len() ==> (#[trigger] sync_plan_spec(t1, req)[i]).0
                == sync_plan_spec(t2, req)[i].0,
        forall|i: int|
            0 <= i < rest_plan_spec(t1, req).len() ==> (#[trigger] rest_plan_spec(t1, req)[i]).0
                == rest_plan_spec(t2, req)[i].0,
        forall|i: int|
            0 <= i < sync_plan_spec(t1, req).len() && (#[trigger] sync_plan_spec(t1, req)[i]).0
                != hname ==> sync_plan_spec(t1, req)[i] == sync_plan_spec(t2, req)[i],
        forall|i: int|
            0 <= i < rest_plan_spec(t1, req).len() && (#[trigger] rest_plan_spec(t1, req)[i]).0
                != hname ==> rest_plan_spec(t1, req)[i] == rest_plan_spec(t2, req)[i],
{
    lemma_selected_agree(t1, t2, str_views(req.sync_hosts@), dedup_first(
        expand_tokens(t1.hostlist@, str_views(req.sync_hosts@)),
    ));
    lemma_selected_agree(t1, t2, str_views(req.hosts@), dedup_first(
        expand_tokens(t1.hostlist@, str_views(req.hosts@)),
    ));
    assert(t1.hostlist@ == t2.hostlist@);
    assert(sync_hosts_resolved(t1, req) == sync_hosts_resolved(t2, req));
    assert(main_hosts_resolved(t1, req) == main_hosts_resolved(t2, req));
    lemma_resolve_commands_agree(t1, t2, str_views(req.sync_commands@));
    lemma_resolve_commands_agree(t1, t2, str_views(req.commands@));

    let se1 = sync_plan_spec(t1, req);
    let se2 = sync_plan_spec(t2, req);
    let sh = sync_hosts_resolved(t1, req);
    assert forall|i: int| 0 <= i < se1.len() implies (#[trigger] se1[i]).0 == se2[i].0 && (se1[i].0
        != hname ==> se1[i] == se2[i]) by {
        if sh[i] != hname {
            lemma_lookup_agree_except(t1.hosts@, t2.hosts@, hname, sh[i]);
            assert(host_record(t1, sh[i]) == host_record(t2, sh[i]));
            lemma_host_commands_agree(
                t1,
                t2,
                host_record(t1, sh[i]),
                sync_nominal(t1, req),
            );
        }
    }

    let re1 = rest_plan_spec(t1, req);
    let re2 = rest_plan_spec(t2, req);
    let mh = main_hosts_resolved(t1, req);
    assert forall|i: int| 0 <= i < re1.len() implies (#[trigger] re1[i]).0 == re2[i].0 && (re1[i].0
        != hname ==> re1[i] == re2[i]) by {
        if mh[i] != hname {
            lemma_lookup_agree_except(t1.hosts@, t2.hosts@, hname, mh[i]);
            assert(host_record(t1, mh[i]) == host_record(t2, mh[i]));
            lemma_host_commands_agree(
                t1,
                t2,
                host_record(t1, mh[i]),
                main_nominal(t1, req),
            );
            assert(rest_cmds_for(t1, req, mh[i]) == rest_cmds_for(t2, req, mh[i]));
        }
    }
}

/// Every requested pair is planned at most once.
///
/// With pairwise distinct command tokens in each selection, the flattened
/// `(host, command name)` pairs of the whole plan — sync cohort first, then
/// the second phase — are pairwise distinct: within a phase because the
/// resolved hosts and the resolved command names are distinct, and across
/// the barrier because a pair the sync cohort runs is struck from that
/// host's second-phase list.
pub proof fn lemma_plan_requests_once(toml: MusshToml, req: SelectionRequest)
    requires
        forall|i: int, j: int|
            0 <= i < j < str_views(req.commands@).len() ==> str_views(req.commands@)[i]
                != str_views(req.commands@)[j],
        forall|i: int, j: int|
            0 <= i < j < str_views(req.sync_commands@).len() ==> str_views(req.sync_commands@)[i]
                != str_views(req.sync_commands@)[j],
    ensures
        ({
            let all = plan_pairs(sync_plan_spec(toml, req)) + plan_pairs(
                rest_plan_spec(toml, req),
            );
            forall|p1: int, p2: int| 0 <= p1 < p2 < all.len() ==> all[p1] != all[p2]
        }),
{
    let se = sync_plan_spec(toml, req);
    let re = rest_plan_spec(toml, req);
    let sh = sync_hosts_resolved(toml, req);
    let mh = main_hosts_resolved(toml, req);
    let sn = sync_nominal(toml, req);
    let mn = main_nominal(toml, req);
    lemma_resolved_hosts_props(toml, str_views(req.sync_hosts@));
    lemma_resolved_hosts_props(toml, str_views(req.hosts@));
    lemma_resolved_names(toml, str_views(req.sync_commands@));
    lemma_resolved_names(toml, str_views(req.commands@));

    // each sync entry's names are the sync nominal names
    assert forall|e: int, c: int|
        0 <= e < se.len() && 0 <= c < se[e].1.len() implies se[e].1[c].0 == sn[c].0 && se[e].1.len()
        == sn.len() by {
        lemma_host_commands_names(toml, host_record(toml, sh[e]), sn);
        assert(names_of(se[e].1) == names_of(sn));
        assert(names_of(se[e].1)[c] == se[e].1[c].0);
        assert(names_of(sn)[c] == sn[c].0);
    }
    // hosts distinct and names distinct within each sync entry
    assert(forall|i: int, j: int| 0 <= i < j < se.len() ==> se[i].0 != se[j].0);
    assert forall|e: int, c1: int, c2: int|
        0 <= e < se.len() && 0 <= c1 < c2 < se[e].1.len() implies se[e].1[c1].0
        != se[e].1[c2].0 by {
        assert(se[e].1[c1].0 == sn[c1].0);
        assert(se[e].1[c2].0 == sn[c2].0);
    }
    lemma_plan_pairs_unique(se);

    // each rest entry's names stay distinct, with or without the sync cut
    assert(forall|i: int, j: int| 0 <= i < j < re.len() ==> re[i].0 != re[j].0);
    assert forall|e: int, c1: int, c2: int|
        0 <= e < re.len() && 0 <= c1 < c2 < re[e].1.len() implies re[e].1[c1].0
        != re[e].1[c2].0 by {
        let prim = host_commands_spec(toml, host_record(toml, mh[e]), mn);
        lemma_host_commands_names(toml, host_record(toml, mh[e]), mn);
        assert forall|a: int, b: int| 0 <= a < b < prim.len() implies prim[a].0 != prim[b].0 by {
            assert(names_of(prim)[a] == prim[a].0);
            assert(names_of(prim)[b] == prim[b].0);
            assert(names_of(mn)[a] == mn[a].0);
            assert(names_of(mn)[b] == mn[b].0);
        }
        if sh.contains(mh[e]) {
            lemma_minus_names_distinct(prim, names_of(sn));
        }
    }
    lemma_plan_pairs_unique(re);

    let all = plan_pairs(se) + plan_pairs(re);
    assert forall|p1: int, p2: int| 0 <= p1 < p2 < all.len() implies all[p1] != all[p2] by {
        let n1 = plan_pairs(se).len();
        if p2 < n1 {
            assert(all[p1] == plan_pairs(se)[p1]);
            assert(all[p2] == plan_pairs(se)[p2]);
        } else if p1 >= n1 {
            assert(all[p1] == plan_pairs(re)[p1 - n1]);
            assert(all[p2] == plan_pairs(re)[p2 - n1]);
        } else {
            // one pair on each side of the barrier
            assert(all[p1] == plan_pairs(se)[p1]);
            assert(all[p2] == plan_pairs(re)[p2 - n1]);
            if all[p1] == all[p2] {
                lemma_pair_entry_at(se, p1);
                lemma_pair_entry_at(re, p2 - n1);
                let (i1, c1) = pair_entry_at(se, p1);
                let (i2, c2) = pair_entry_at(re, p2 - n1);
                let h = se[i1].0;
                assert(h == sh[i1]);
                assert(sh.contains(h));
                assert(re[i2].0 == mh[i2]);
                assert(mh[i2] == h);
                let prim = host_commands_spec(toml, host_record(toml, h), mn);
                assert(re[i2].1 == minus_names(prim, names_of(sn)));
                lemma_minus_names_membership(prim, names_of(sn));
                let nm = re[i2].1[c2].0;
                assert(!names_of(sn).contains(nm));
                assert(se[i1].1[c1].0 == sn[c1].0);
                assert(names_of(sn)[c1] == sn[c1].0);
                assert(names_of(sn).contains(sn[c1].0));
                assert(false);
            }
        }
    }
}

/// Every pair of a phase names one of the phase's hosts together with one of
/// that entry's command names.
pub proof fn lemma_plan_pairs_membership(entries: Seq<(Seq<char>, Seq<(Seq<char>, Seq<char>)>)>)
    ensures
        forall|p: int|
            0 <= p < plan_pairs(entries).len() ==> pair_in_entries(
                entries,
                #[trigger] plan_pairs(entries)[p],
            ),
    decreases entries.len(),
{
    if entries.len() == 0 {
    } else {
        let dl = entries.drop_last();
        lemma_plan_pairs_membership(dl);
        assert(forall|i: int| 0 <= i < dl.len() ==> dl[i] == entries[i]);
        let pdl = plan_pairs(dl);
        let p_all = plan_pairs(entries);
        assert forall|p: int| 0 <= p < p_all.len() implies pair_in_entries(
            entries,
            #[trigger] p_all[p],
        ) by {
            if p < pdl.len() {
                assert(p_all[p] == pdl[p]);
                assert(pair_in_entries(dl, pdl[p]));
                let (i, c) = choose|i: int, c: int|
                    0 <= i < dl.len() && 0 <= c < dl[i].1.len() && pdl[p] == (
                        dl[i].0,
                        #[trigger] dl[i].1[c].0,
                    );
                assert(0 <= i < entries.len() && 0 <= c < entries[i].1.len() && p_all[p] == (
                    entries[i].0,
                    entries[i].1[c].0,
                ));
            } else {
                let c = p - pdl.len();
                let i = entries.len() - 1;
                assert(0 <= i < entries.len() && 0 <= c < entries[i].1.len() && p_all[p] == (
                    entries[i].0,
                    entries[i].1[c].0,
                ));
            }
        }
    }
}

} // verus!
