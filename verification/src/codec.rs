//! The configuration text: writing a configuration out, and reading one
//! back.
//!
//! The writer emits a canonical form of the configuration schema: first the
//! host groups, then the hosts with their aliases, then the commands, one
//! item per line, every string double-quoted.  Its contract gives the exact
//! line sequence.  The reader's contract covers both directions: every
//! canonical text — the writer's rendering of any configuration — is
//! accepted, and whatever is accepted writes back out as exactly the lines
//! that were read.  A stored configuration therefore always loads, and a
//! loaded configuration survives any number of store-and-reload cycles
//! unchanged.

use vstd::prelude::*;
use crate::config::{MusshToml, Hosts, Host, Command, Alias, str_views};
use crate::error::MusshErrKind;
use crate::util::{dec_str, u64_to_string};

verus! {

/// A string in double quotes.
pub open spec fn quoted(v: Seq<char>) -> Seq<char> {
    "\""@ + v + "\""@
}

/// The quoted names joined with a comma and a space.
pub open spec fn joined_quoted(names: Seq<Seq<char>>) -> Seq<char>
    decreases names.len(),
{
    if names.len() == 0 {
        Seq::empty()
    } else if names.len() == 1 {
        quoted(names[0])
    } else {
        joined_quoted(names.drop_last()) + ", "@ + quoted(names.last())
    }
}

/// The lines of one host group.
pub open spec fn group_lines(name: Seq<char>, g: Hosts) -> Seq<Seq<char>> {
    seq![
        "[hostlist."@ + name + "]"@,
        "hostnames = ["@ + joined_quoted(str_views(g.hostnames@)) + "]"@,
    ]
}

/// The lines of one alias of a host.
pub open spec fn alias_lines(host: Seq<char>, a: Alias) -> Seq<Seq<char>> {
    seq![
        "[[hosts."@ + host + ".alias]]"@,
        "command = "@ + quoted(a.command@),
        "aliasfor = "@ + quoted(a.aliasfor@),
    ]
}

/// The lines of all aliases of a host, in declaration order.
pub open spec fn aliases_lines(host: Seq<char>, aliases: Seq<Alias>) -> Seq<Seq<char>>
    decreases aliases.len(),
{
    if aliases.len() == 0 {
        Seq::empty()
    } else {
        aliases_lines(host, aliases.drop_last()) + alias_lines(host, aliases.last())
    }
}

/// The lines of one host before its aliases: the header, the required
/// fields, and the optional port and key path.
pub open spec fn host_head_lines(name: Seq<char>, h: Host) -> Seq<Seq<char>> {
    seq![
        "[hosts."@ + name + "]"@,
        "hostname = "@ + quoted(h.hostname@),
        "username = "@ + quoted(h.username@),
    ] + (match h.port {
        Some(p) => seq!["port = "@ + dec_str(p as nat)],
        None => Seq::empty(),
    }) + (match h.pem {
        Some(p) => seq!["pem = "@ + quoted(p@)],
        None => Seq::empty(),
    })
}

/// The lines of one host: its head, then its aliases.
pub open spec fn host_lines(name: Seq<char>, h: Host) -> Seq<Seq<char>> {
    host_head_lines(name, h) + aliases_lines(name, h.alias@)
}

/// The lines of one command.
pub open spec fn cmd_lines(name: Seq<char>, c: Command) -> Seq<Seq<char>> {
    seq!["[cmd."@ + name + "]"@, "command = "@ + quoted(c.command@)]
}

/// The lines of all host groups, in table order.
pub open spec fn groups_lines(entries: Seq<(String, Hosts)>) -> Seq<Seq<char>>
    decreases entries.len(),
{
    if entries.len() == 0 {
        Seq::empty()
    } else {
        groups_lines(entries.drop_last()) + group_lines(
            entries.last().0@,
            entries.last().1,
        )
    }
}

/// The lines of all hosts, in table order.
pub open spec fn hosts_lines(entries: Seq<(String, Host)>) -> Seq<Seq<char>>
    decreases entries.len(),
{
    if entries.len() == 0 {
        Seq::empty()
    } else {
        hosts_lines(entries.drop_last()) + host_lines(entries.last().0@, entries.last().1)
    }
}

/// The lines of all commands, in table order.
pub open spec fn cmds_lines(entries: Seq<(String, Command)>) -> Seq<Seq<char>>
    decreases entries.len(),
{
    if entries.len() == 0 {
        Seq::empty()
    } else {
        cmds_lines(entries.drop_last()) + cmd_lines(entries.last().0@, entries.last().1)
    }
}

/// The canonical text of a configuration, one line per element: the host
/// groups, then the hosts with their aliases, then the commands.
pub open spec fn serialize_lines_spec(t: MusshToml) -> Seq<Seq<char>> {
    groups_lines(t.hostlist@) + hosts_lines(t.hosts@) + cmds_lines(t.cmd@)
}

/// Append a quoted string to a line.
fn push_quoted(line: &mut String, v: &String)
    ensures
        final(line)@ == old(line)@ + quoted(v@),
{
    line.append("\"");
    line.append(v.as_str());
    line.append("\"");
    assert(final(line)@ =~= old(line)@ + quoted(v@));
}

/// Move a block of lines to the end of the output.
fn append_lines(out: &mut Vec<String>, block: Vec<String>)
    ensures
        str_views(final(out)@) == str_views(old(out)@) + str_views(block@),
{
    let ghost b = block@;
    let ghost o = out@;
    let mut blk = block;
    out.append(&mut blk);
    proof {
        assert(str_views(out@).len() == (str_views(o) + str_views(b)).len());
        assert forall|x: int| 0 <= x < out@.len() implies str_views(out@)[x] == (str_views(o)
            + str_views(b))[x] by {
            if x < o.len() {
                assert(out@[x] == o[x]);
                assert(str_views(o)[x] == o[x]@);
            } else {
                assert(out@[x] == b[x - o.len()]);
                assert(str_views(b)[x - o.len()] == b[x - o.len()]@);
            }
        }
        assert(str_views(out@) =~= str_views(o) + str_views(b));
    }
}

/// The lines of one host group.
fn group_block(name: &String, g: &Hosts) -> (r: Vec<String>)
    ensures
        str_views(r@) == group_lines(name@, *g),
{
    let mut out: Vec<String> = Vec::new();
    let mut header = String::from_str("[hostlist.");
    header.append(name.as_str());
    header.append("]");
    out.push(header);
    let mut line = String::from_str("hostnames = [");
    let ghost gnames = str_views(g.hostnames@);
    let m = g.hostnames.len();
    let mut j: usize = 0;
    while j < m
        invariant
            m == g.hostnames@.len(),
            gnames == str_views(g.hostnames@),
            j <= m,
            line@ == "hostnames = ["@ + joined_quoted(gnames.take(j as int)),
        decreases m - j,
    {
        proof {
            assert(gnames.take(j + 1).drop_last() =~= gnames.take(j as int));
            assert(gnames.take(j + 1).last() == gnames[j as int]);
            if j == 0 {
                assert(gnames.take(1) =~= seq![gnames[0]]);
            }
        }
        if j > 0 {
            line.append(", ");
        }
        push_quoted(&mut line, &g.hostnames[j]);
        proof {
            assert(line@ =~= "hostnames = ["@ + joined_quoted(gnames.take(j + 1)));
        }
        j += 1;
    }
    proof {
        assert(gnames.take(m as int) =~= gnames);
    }
    line.append("]");
    out.push(line);
    proof {
        assert(str_views(out@) =~~= group_lines(name@, *g));
    }
    out
}

/// The lines of one alias.
fn alias_block(host: &String, a: &Alias) -> (r: Vec<String>)
    ensures
        str_views(r@) == alias_lines(host@, *a),
{
    let mut out: Vec<String> = Vec::new();
    let mut ah = String::from_str("[[hosts.");
    ah.append(host.as_str());
    ah.append(".alias]]");
    out.push(ah);
    let mut ac = String::from_str("command = ");
    push_quoted(&mut ac, &a.command);
    out.push(ac);
    let mut af = String::from_str("aliasfor = ");
    push_quoted(&mut af, &a.aliasfor);
    out.push(af);
    proof {
        assert(str_views(out@) =~~= alias_lines(host@, *a));
    }
    out
}

/// The lines of one host, aliases included.
fn host_block(name: &String, h: &Host) -> (r: Vec<String>)
    ensures
        str_views(r@) == host_lines(name@, *h),
{
    let mut out: Vec<String> = Vec::new();
    let mut header = String::from_str("[hosts.");
    header.append(name.as_str());
    header.append("]");
    out.push(header);
    let mut l1 = String::from_str("hostname = ");
    push_quoted(&mut l1, &h.hostname);
    out.push(l1);
    let mut l2 = String::from_str("username = ");
    push_quoted(&mut l2, &h.username);
    out.push(l2);
    match h.port {
        Some(p) => {
            let mut l3 = String::from_str("port = ");
            let pt = u64_to_string(p as u64);
            l3.append(pt.as_str());
            out.push(l3);
        },
        None => {},
    }
    match &h.pem {
        Some(p) => {
            let mut l4 = String::from_str("pem = ");
            push_quoted(&mut l4, p);
            out.push(l4);
        },
        None => {},
    }
    proof {
        assert(str_views(out@) =~~= host_head_lines(name@, *h));
    }
    let ghost head = str_views(out@);
    let an = h.alias.len();
    let mut a: usize = 0;
    proof {
        assert(str_views(out@) =~~= head + aliases_lines(name@, h.alias@.take(0)));
    }
    while a < an
        invariant
            an == h.alias@.len(),
            head == host_head_lines(name@, *h),
            a <= an,
            str_views(out@) == head + aliases_lines(name@, h.alias@.take(a as int)),
        decreases an - a,
    {
        proof {
            assert(h.alias@.take(a + 1).drop_last() =~= h.alias@.take(a as int));
            assert(h.alias@.take(a + 1).last() == h.alias@[a as int]);
        }
        let blk = alias_block(name, &h.alias[a]);
        append_lines(&mut out, blk);
        proof {
            assert(str_views(out@) =~= head + aliases_lines(name@, h.alias@.take(a + 1)));
        }
        a += 1;
    }
    proof {
        assert(h.alias@.take(an as int) =~= h.alias@);
        assert(str_views(out@) =~= host_lines(name@, *h));
    }
    out
}

/// The lines of one command.
fn cmd_block(name: &String, c: &Command) -> (r: Vec<String>)
    ensures
        str_views(r@) == cmd_lines(name@, *c),
{
    let mut out: Vec<String> = Vec::new();
    let mut header = String::from_str("[cmd.");
    header.append(name.as_str());
    header.append("]");
    out.push(header);
    let mut line = String::from_str("command = ");
    push_quoted(&mut line, &c.command);
    out.push(line);
    proof {
        assert(str_views(out@) =~~= cmd_lines(name@, *c));
    }
    out
}

/// Write one configuration out as its canonical lines.
pub fn serialize_lines(t: &MusshToml) -> (r: Vec<String>)
    ensures
        str_views(r@) == serialize_lines_spec(*t),
{
    let mut out: Vec<String> = Vec::new();

    // host groups
    let gn = t.hostlist.len();
    let mut i: usize = 0;
    proof {
        assert(str_views(out@) =~= groups_lines(t.hostlist@.take(0)));
    }
    while i < gn
        invariant
            gn == t.hostlist@.len(),
            i <= gn,
            str_views(out@) == groups_lines(t.hostlist@.take(i as int)),
        decreases gn - i,
    {
        proof {
            assert(t.hostlist@.take(i + 1).drop_last() =~= t.hostlist@.take(i as int));
            assert(t.hostlist@.take(i + 1).last() == t.hostlist@[i as int]);
        }
        let blk = group_block(&t.hostlist[i].0, &t.hostlist[i].1);
        append_lines(&mut out, blk);
        proof {
            assert(str_views(out@) =~= groups_lines(t.hostlist@.take(i + 1)));
        }
        i += 1;
    }
    proof {
        assert(t.hostlist@.take(gn as int) =~= t.hostlist@);
    }

    // hosts
    let ghost after_groups = groups_lines(t.hostlist@);
    let hn = t.hosts.len();
    let mut k: usize = 0;
    proof {
        assert(str_views(out@) =~= after_groups + hosts_lines(t.hosts@.take(0)));
    }
    while k < hn
        invariant
            hn == t.hosts@.len(),
            after_groups == groups_lines(t.hostlist@),
            k <= hn,
            str_views(out@) == after_groups + hosts_lines(t.hosts@.take(k as int)),
        decreases hn - k,
    {
        proof {
            assert(t.hosts@.take(k + 1).drop_last() =~= t.hosts@.take(k as int));
            assert(t.hosts@.take(k + 1).last() == t.hosts@[k as int]);
        }
        let blk = host_block(&t.hosts[k].0, &t.hosts[k].1);
        append_lines(&mut out, blk);
        proof {
            assert(str_views(out@) =~= after_groups + hosts_lines(t.hosts@.take(k + 1)));
        }
        k += 1;
    }
    proof {
        assert(t.hosts@.take(hn as int) =~= t.hosts@);
    }

    // commands
    let ghost after_hosts = after_groups + hosts_lines(t.hosts@);
    let cn = t.cmd.len();
    let mut c: usize = 0;
    proof {
        assert(str_views(out@) =~= after_hosts + cmds_lines(t.cmd@.take(0)));
    }
    while c < cn
        invariant
            cn == t.cmd@.len(),
            after_hosts == groups_lines(t.hostlist@) + hosts_lines(t.hosts@),
            c <= cn,
            str_views(out@) == after_hosts + cmds_lines(t.cmd@.take(c as int)),
        decreases cn - c,
    {
        proof {
            assert(t.cmd@.take(c + 1).drop_last() =~= t.cmd@.take(c as int));
            assert(t.cmd@.take(c + 1).last() == t.cmd@[c as int]);
        }
        let blk = cmd_block(&t.cmd[c].0, &t.cmd[c].1);
        append_lines(&mut out, blk);
        proof {
            assert(str_views(out@) =~= after_hosts + cmds_lines(t.cmd@.take(c + 1)));
        }
        c += 1;
    }
    proof {
        assert(t.cmd@.take(cn as int) =~= t.cmd@);
        assert(str_views(out@) =~= serialize_lines_spec(*t));
    }
    out
}


/// Whether a line splits as `prefix`, some middle, then `suffix`.
pub open spec fn shaped(line: Seq<char>, prefix: Seq<char>, suffix: Seq<char>) -> bool {
    &&& line.len() >= prefix.len() + suffix.len()
    &&& line.take(prefix.len() as int) == prefix
    &&& line.skip((line.len() - suffix.len()) as int) == suffix
}

/// The middle of such a line.
pub open spec fn shape_mid(line: Seq<char>, prefix: Seq<char>, suffix: Seq<char>) -> Seq<char> {
    line.subrange(prefix.len() as int, (line.len() - suffix.len()) as int)
}

/// A line assembled as prefix, middle, suffix splits back into exactly them.
pub proof fn lemma_concat_shaped(prefix: Seq<char>, x: Seq<char>, suffix: Seq<char>)
    ensures
        shaped(prefix + x + suffix, prefix, suffix),
        shape_mid(prefix + x + suffix, prefix, suffix) == x,
{
    let line = prefix + x + suffix;
    assert(line.take(prefix.len() as int) =~= prefix);
    assert(line.skip((line.len() - suffix.len()) as int) =~= suffix);
    assert(line.subrange(prefix.len() as int, (line.len() - suffix.len()) as int) =~= x);
}

/// A shaped line is exactly its prefix, middle and suffix put together.
pub proof fn lemma_shaped_recompose(line: Seq<char>, prefix: Seq<char>, suffix: Seq<char>)
    requires
        shaped(line, prefix, suffix),
    ensures
        line == prefix + shape_mid(line, prefix, suffix) + suffix,
{
    assert(line =~= prefix + shape_mid(line, prefix, suffix) + suffix);
}

/// Whether `p` is a prefix of `s`, character for character.
fn starts_with_str(s: &String, p: &str) -> (r: bool)
    ensures
        r == p@.is_prefix_of(s@),
{
    let sl = s.as_str().unicode_len();
    let pl = p.unicode_len();
    if pl > sl {
        assert(!p@.is_prefix_of(s@));
        return false;
    }
    let mut i: usize = 0;
    while i < pl
        invariant
            pl == p@.len(),
            sl == s@.len(),
            pl <= sl,
            i <= pl,
            forall|j: int| 0 <= j < i ==> s@[j] == p@[j],
        decreases pl - i,
    {
        if s.as_str().get_char(i) != p.get_char(i) {
            assert(!p@.is_prefix_of(s@)) by {
                assert(s@.subrange(0, pl as int)[i as int] != p@[i as int]);
            }
            return false;
        }
        i += 1;
    }
    assert(p@ =~= s@.subrange(0, pl as int));
    true
}

/// The characters of `s` from `from` to `to`.
fn slice_chars(s: &String, from: usize, to: usize) -> (r: String)
    requires
        from <= to <= s@.len(),
    ensures
        r@ == s@.subrange(from as int, to as int),
{
    String::from_str(s.as_str().substring_char(from, to))
}

/// The middle of a line `prefixNAMEsuffix`, or nothing when the line has
/// another shape.
fn header_payload(line: &String, prefix: &str, suffix: &str) -> (r: Option<String>)
    ensures
        r is Some <==> shaped(line@, prefix@, suffix@),
        r matches Some(v) ==> v@ == shape_mid(line@, prefix@, suffix@),
{
    let ll = line.as_str().unicode_len();
    let pl = prefix.unicode_len();
    let sl = suffix.unicode_len();
    if !starts_with_str(line, prefix) {
        assert(!shaped(line@, prefix@, suffix@)) by {
            if shaped(line@, prefix@, suffix@) {
                assert(line@.take(pl as int) =~= line@.subrange(0, pl as int));
            }
        }
        return None;
    }
    assert(pl <= ll);
    if ll - pl < sl {
        return None;
    }
    let tail = slice_chars(line, ll - sl, ll);
    if !(tail == String::from_str(suffix)) {
        assert(!shaped(line@, prefix@, suffix@)) by {
            if shaped(line@, prefix@, suffix@) {
                assert(line@.skip((ll - sl) as int) =~= line@.subrange((ll - sl) as int, ll as int));
            }
        }
        return None;
    }
    proof {
        assert(line@.take(pl as int) =~= line@.subrange(0, pl as int));
        assert(line@.skip((ll - sl) as int) =~= line@.subrange((ll - sl) as int, ll as int));
        assert(shaped(line@, prefix@, suffix@));
    }
    Some(slice_chars(line, pl, ll - sl))
}

/// The quoted value of a line `key"VALUE"`, or nothing when the line has
/// another shape.
fn quoted_payload(line: &String, key: &str) -> (r: Option<String>)
    ensures
        r is Some <==> shaped(line@, key@ + "\""@, "\""@),
        r matches Some(v) ==> v@ == shape_mid(line@, key@ + "\""@, "\""@),
{
    proof {
        reveal_strlit("\"");
    }
    let ll = line.as_str().unicode_len();
    let kl = key.unicode_len();
    if !starts_with_str(line, key) {
        assert(!shaped(line@, key@ + "\""@, "\""@)) by {
            if shaped(line@, key@ + "\""@, "\""@) {
                assert(line@.take((kl + 1) as int) =~= (key@ + "\""@).take(kl as int) + (key@
                    + "\""@).skip(kl as int)) by {
                    assert(line@.take((kl + 1) as int) =~= key@ + "\""@);
                }
                assert(key@ =~= line@.subrange(0, kl as int)) by {
                    assert(forall|j: int|
                        0 <= j < kl ==> line@[j] == (key@ + "\""@)[j] && (key@ + "\""@)[j]
                            == key@[j]);
                }
            }
        }
        return None;
    }
    assert(kl <= ll);
    if ll - kl < 2 {
        return None;
    }
    if line.as_str().get_char(kl) != '"' {
        assert(!shaped(line@, key@ + "\""@, "\""@)) by {
            if shaped(line@, key@ + "\""@, "\""@) {
                assert(line@.take((kl + 1) as int)[kl as int] == (key@ + "\""@)[kl as int]);
            }
        }
        return None;
    }
    if line.as_str().get_char(ll - 1) != '"' {
        assert(!shaped(line@, key@ + "\""@, "\""@)) by {
            if shaped(line@, key@ + "\""@, "\""@) {
                assert(line@.skip((ll - 1) as int)[0] == "\""@[0]);
            }
        }
        return None;
    }
    proof {
        assert(line@.take((kl + 1) as int) =~= key@ + "\""@) by {
            assert(key@ =~= line@.subrange(0, kl as int));
            assert(line@[kl as int] == '"');
        }
        assert(line@.skip((ll - 1) as int) =~= "\""@);
        assert(shaped(line@, key@ + "\""@, "\""@));
    }
    Some(slice_chars(line, kl + 1, ll - 1))
}
/// The four characters that stand between two quoted names in a hostnames
/// array.
pub open spec fn name_sep() -> Seq<char> {
    "\", \""@
}

/// The member names joined with that separator, without the outer quotes.
pub open spec fn joined_inner(names: Seq<Seq<char>>) -> Seq<char>
    decreases names.len(),
{
    if names.len() <= 1 {
        if names.len() == 0 {
            Seq::empty()
        } else {
            names[0]
        }
    } else {
        joined_inner(names.drop_last()) + name_sep() + names.last()
    }
}

/// For at least one name, the quoted join is the inner join in outer quotes.
pub proof fn lemma_joined_quoted_inner(names: Seq<Seq<char>>)
    requires
        names.len() >= 1,
    ensures
        joined_quoted(names) == "\""@ + joined_inner(names) + "\""@,
    decreases names.len(),
{
    reveal_strlit("\"");
    reveal_strlit(", ");
    reveal_strlit("\", \"");
    if names.len() == 1 {
        assert(joined_quoted(names) =~= "\""@ + joined_inner(names) + "\""@);
    } else {
        lemma_joined_quoted_inner(names.drop_last());
        assert(joined_quoted(names) =~= "\""@ + joined_inner(names) + "\""@);
    }
}

/// Split on every separator occurrence, scanning left to right: the pieces
/// joined with the separator give back the input.
fn split_sep(inner: &String) -> (r: Vec<String>)
    ensures
        r@.len() >= 1,
        joined_inner(str_views(r@)) == inner@,
{
    proof {
        reveal_strlit("\", \"");
    }
    let n = inner.as_str().unicode_len();
    let mut pieces: Vec<String> = Vec::new();
    let mut start: usize = 0;
    let mut i: usize = 0;
    while i < n && n - i >= 4
        invariant
            n == inner@.len(),
            start <= i <= n,
            pieces@.len() == 0 ==> start == 0,
            pieces@.len() >= 1 ==> joined_inner(str_views(pieces@)) + name_sep() == inner@.take(
                start as int,
            ),
            name_sep() == "\", \""@,
            "\", \""@.len() == 4,
            "\", \""@[0] == '"' && "\", \""@[1] == ',' && "\", \""@[2] == ' ' && "\", \""@[3]
                == '"',
        decreases n - i,
    {
        let hit = inner.as_str().get_char(i) == '"' && inner.as_str().get_char(i + 1) == ','
            && inner.as_str().get_char(i + 2) == ' ' && inner.as_str().get_char(i + 3) == '"';
        if hit {
            let piece = slice_chars(inner, start, i);
            let ghost pre = pieces@;
            pieces.push(piece);
            proof {
                assert(inner@.subrange(i as int, i + 4) =~= name_sep());
                if pre.len() == 0 {
                    assert(str_views(pieces@) =~= seq![inner@.subrange(0, i as int)]);
                    assert(joined_inner(str_views(pieces@)) == inner@.take(i as int)) by {
                        assert(inner@.subrange(0, i as int) =~= inner@.take(i as int));
                    }
                } else {
                    assert(str_views(pieces@).drop_last() =~= str_views(pre));
                    assert(str_views(pieces@).last() == inner@.subrange(start as int, i as int));
                    assert(joined_inner(str_views(pieces@)) =~= inner@.take(i as int));
                }
                assert(joined_inner(str_views(pieces@)) + name_sep() =~= inner@.take(i + 4));
            }
            start = i + 4;
            i = start;
        } else {
            i += 1;
        }
    }
    let lastp = slice_chars(inner, start, n);
    let ghost pre = pieces@;
    pieces.push(lastp);
    proof {
        if pre.len() == 0 {
            assert(str_views(pieces@) =~= seq![inner@.subrange(0, n as int)]);
            assert(joined_inner(str_views(pieces@)) == inner@) by {
                assert(inner@.subrange(0, n as int) =~= inner@);
            }
        } else {
            assert(str_views(pieces@).drop_last() =~= str_views(pre));
            assert(str_views(pieces@).last() == inner@.subrange(start as int, n as int));
            assert(joined_inner(str_views(pieces@)) =~= inner@);
        }
    }
    pieces
}

/// The member names of a line `hostnames = [...]`, or nothing when the line
/// has another shape.  Whatever comes back joins up into exactly the line
/// that was read, and every line written by the serializer is accepted.
fn parse_name_array(line: &String) -> (r: Option<Vec<String>>)
    ensures
        r matches Some(v) ==> line@ == "hostnames = ["@ + joined_quoted(str_views(v@)) + "]"@,
        forall|ns: Seq<Seq<char>>|
            line@ == "hostnames = ["@ + #[trigger] joined_quoted(ns) + "]"@ ==> r is Some,
{
    proof {
        reveal_strlit("\"");
    }
    let arr = match header_payload(line, "hostnames = [", "]") {
        Some(a) => a,
        None => {
            proof {
                assert forall|ns: Seq<Seq<char>>|
                    line@ != "hostnames = ["@ + #[trigger] joined_quoted(ns) + "]"@ by {
                    if line@ == "hostnames = ["@ + joined_quoted(ns) + "]"@ {
                        lemma_concat_shaped("hostnames = ["@, joined_quoted(ns), "]"@);
                    }
                }
            }
            return None;
        },
    };
    proof {
        lemma_shaped_recompose(line@, "hostnames = ["@, "]"@);
    }
    let ml = arr.as_str().unicode_len();
    if ml == 0 {
        let empty_names: Vec<String> = Vec::new();
        proof {
            assert(str_views(empty_names@) =~= Seq::<Seq<char>>::empty());
            assert(arr@ =~= joined_quoted(str_views(empty_names@)));
        }
        return Some(empty_names);
    }
    if ml >= 2 && arr.as_str().get_char(0) == '"' && arr.as_str().get_char(ml - 1) == '"' {
        let inner = slice_chars(&arr, 1, ml - 1);
        let pieces = split_sep(&inner);
        proof {
            lemma_joined_quoted_inner(str_views(pieces@));
            assert(arr@ =~= "\""@ + inner@ + "\""@);
            assert(joined_quoted(str_views(pieces@)) == arr@);
        }
        Some(pieces)
    } else {
        proof {
            assert forall|ns: Seq<Seq<char>>|
                line@ != "hostnames = ["@ + #[trigger] joined_quoted(ns) + "]"@ by {
                if line@ == "hostnames = ["@ + joined_quoted(ns) + "]"@ {
                    lemma_concat_shaped("hostnames = ["@, joined_quoted(ns), "]"@);
                    assert(arr@ == joined_quoted(ns));
                    if ns.len() >= 1 {
                        lemma_joined_quoted_inner(ns);
                        assert(arr@[0] == '"');
                        assert(arr@[arr@.len() - 1] == '"');
                        assert(arr@.len() >= 2);
                    }
                }
            }
        }
        None
    }
}

/// The value of one decimal digit character; zero for anything else.
pub open spec fn digit_of(c: char) -> nat {
    if c == '1' {
        1
    } else if c == '2' {
        2
    } else if c == '3' {
        3
    } else if c == '4' {
        4
    } else if c == '5' {
        5
    } else if c == '6' {
        6
    } else if c == '7' {
        7
    } else if c == '8' {
        8
    } else if c == '9' {
        9
    } else {
        0
    }
}

/// The number a run of digit characters denotes.
pub open spec fn val_of(s: Seq<char>) -> nat
    decreases s.len(),
{
    if s.len() == 0 {
        0
    } else {
        val_of(s.drop_last()) * 10 + digit_of(s.last())
    }
}

/// Reading one digit character back gives the digit.
pub proof fn lemma_digit_roundtrip(d: nat)
    requires
        d < 10,
    ensures
        digit_of(crate::util::digit_char(d)) == d,
{
}

/// Printing a number and reading the digits back gives the number.
pub proof fn lemma_val_of_dec(n: nat)
    ensures
        val_of(crate::util::dec_str(n)) == n,
    decreases n,
{
    if n < 10 {
        lemma_digit_roundtrip(n);
        assert(crate::util::dec_str(n) == seq![crate::util::digit_char(n)]);
        assert(crate::util::dec_str(n).len() == 1);
        assert(crate::util::dec_str(n).drop_last() =~= Seq::<char>::empty());
        assert(val_of(Seq::<char>::empty()) == 0);
        assert(crate::util::dec_str(n).last() == crate::util::digit_char(n));
        assert(val_of(crate::util::dec_str(n)) == 0 * 10 + digit_of(crate::util::digit_char(n)));
    } else {
        lemma_val_of_dec(n / 10);
        lemma_digit_roundtrip(n % 10);
        assert(crate::util::dec_str(n).drop_last() =~= crate::util::dec_str(n / 10));
        assert(crate::util::dec_str(n).last() == crate::util::digit_char(n % 10));
        assert(val_of(crate::util::dec_str(n)) == (n / 10) * 10 + n % 10);
        assert((n / 10) * 10 + n % 10 == n) by (nonlinear_arith);
    }
}

/// A prefix of a digit run denotes no more than the whole run.
pub proof fn lemma_val_of_prefix(s: Seq<char>, i: int)
    requires
        0 <= i <= s.len(),
    ensures
        val_of(s.take(i)) <= val_of(s),
    decreases s.len() - i,
{
    if i < s.len() {
        assert(s.take(i + 1).drop_last() =~= s.take(i));
        assert(s.take(i + 1).last() == s[i]);
        lemma_val_of_prefix(s, i + 1);
    } else {
        assert(s.take(i) =~= s);
    }
}

/// A port number, or nothing when the text is not digits within range.
/// Every port the serializer prints is read back as the same number.
fn parse_port(s: &String) -> (r: Option<u16>)
    ensures
        forall|p0: u16| s@ == crate::util::dec_str(p0 as nat) ==> r == Some(p0),
{
    let n = s.as_str().unicode_len();
    if n == 0 {
        return None;
    }
    let mut v: u32 = 0;
    let mut i: usize = 0;
    while i < n
        invariant
            n == s@.len(),
            i <= n,
            v == val_of(s@.take(i as int)),
            v <= 65535,
        decreases n - i,
    {
        let c = s.as_str().get_char(i);
        let d: u32 = if c == '0' {
            0
        } else if c == '1' {
            1
        } else if c == '2' {
            2
        } else if c == '3' {
            3
        } else if c == '4' {
            4
        } else if c == '5' {
            5
        } else if c == '6' {
            6
        } else if c == '7' {
            7
        } else if c == '8' {
            8
        } else if c == '9' {
            9
        } else {
            proof {
                assert forall|p0: u16| s@ != crate::util::dec_str(p0 as nat) by {
                    if s@ == crate::util::dec_str(p0 as nat) {
                        lemma_dec_str_digits(p0 as nat, i as int);
                    }
                }
            }
            return None;
        };
        proof {
            assert(d == digit_of(c));
            assert(s@.take(i + 1).drop_last() =~= s@.take(i as int));
            assert(s@.take(i + 1).last() == s@[i as int]);
        }
        if v > 6553 || (v == 6553 && d > 5) {
            proof {
                assert forall|p0: u16| s@ != crate::util::dec_str(p0 as nat) by {
                    if s@ == crate::util::dec_str(p0 as nat) {
                        lemma_val_of_dec(p0 as nat);
                        lemma_val_of_prefix(s@, i + 1);
                    }
                }
            }
            return None;
        }
        v = v * 10 + d;
        i += 1;
    }
    proof {
        assert(s@.take(n as int) =~= s@);
    }
    let out = v as u16;
    proof {
        assert forall|p0: u16| s@ == crate::util::dec_str(p0 as nat) implies out == p0 by {
            lemma_val_of_dec(p0 as nat);
        }
    }
    Some(out)
}

/// Every character a printed number holds is a decimal digit.
pub proof fn lemma_dec_str_digits(n: nat, i: int)
    requires
        0 <= i < crate::util::dec_str(n).len(),
    ensures
        ({
            let c = crate::util::dec_str(n)[i];
            c == '0' || c == '1' || c == '2' || c == '3' || c == '4' || c == '5' || c == '6' || c
                == '7' || c == '8' || c == '9'
        }),
    decreases n,
{
    if n < 10 {
    } else {
        if i < crate::util::dec_str(n / 10).len() {
            lemma_dec_str_digits(n / 10, i);
        }
    }
}

/// The text of a table splits off its first group's lines.
pub proof fn lemma_groups_lines_first(entries: Seq<(String, Hosts)>)
    requires
        entries.len() >= 1,
    ensures
        groups_lines(entries) == group_lines(entries[0].0@, entries[0].1) + groups_lines(
            entries.drop_first(),
        ),
    decreases entries.len(),
{
    if entries.len() == 1 {
        assert(entries.drop_last() =~= Seq::<(String, Hosts)>::empty());
        assert(entries.drop_first() =~= Seq::<(String, Hosts)>::empty());
        assert(groups_lines(entries) =~= group_lines(entries[0].0@, entries[0].1) + groups_lines(
            entries.drop_first(),
        ));
    } else {
        let dl = entries.drop_last();
        lemma_groups_lines_first(dl);
        assert(dl[0] == entries[0]);
        assert(entries.drop_first().drop_last() =~= dl.drop_first());
        assert(entries.drop_first().last() == entries.last());
        assert(groups_lines(entries) =~= group_lines(entries[0].0@, entries[0].1) + groups_lines(
            entries.drop_first(),
        ));
    }
}

/// The text of a table splits off its first host's lines.
pub proof fn lemma_hosts_lines_first(entries: Seq<(String, Host)>)
    requires
        entries.len() >= 1,
    ensures
        hosts_lines(entries) == host_lines(entries[0].0@, entries[0].1) + hosts_lines(
            entries.drop_first(),
        ),
    decreases entries.len(),
{
    if entries.len() == 1 {
        assert(entries.drop_last() =~= Seq::<(String, Host)>::empty());
        assert(entries.drop_first() =~= Seq::<(String, Host)>::empty());
        assert(hosts_lines(entries) =~= host_lines(entries[0].0@, entries[0].1) + hosts_lines(
            entries.drop_first(),
        ));
    } else {
        let dl = entries.drop_last();
        lemma_hosts_lines_first(dl);
        assert(dl[0] == entries[0]);
        assert(entries.drop_first().drop_last() =~= dl.drop_first());
        assert(entries.drop_first().last() == entries.last());
        assert(hosts_lines(entries) =~= host_lines(entries[0].0@, entries[0].1) + hosts_lines(
            entries.drop_first(),
        ));
    }
}

/// The text of a table splits off its first command's lines.
pub proof fn lemma_cmds_lines_first(entries: Seq<(String, Command)>)
    requires
        entries.len() >= 1,
    ensures
        cmds_lines(entries) == cmd_lines(entries[0].0@, entries[0].1) + cmds_lines(
            entries.drop_first(),
        ),
    decreases entries.len(),
{
    if entries.len() == 1 {
        assert(entries.drop_last() =~= Seq::<(String, Command)>::empty());
        assert(entries.drop_first() =~= Seq::<(String, Command)>::empty());
        assert(cmds_lines(entries) =~= cmd_lines(entries[0].0@, entries[0].1) + cmds_lines(
            entries.drop_first(),
        ));
    } else {
        let dl = entries.drop_last();
        lemma_cmds_lines_first(dl);
        assert(dl[0] == entries[0]);
        assert(entries.drop_first().drop_last() =~= dl.drop_first());
        assert(entries.drop_first().last() == entries.last());
        assert(cmds_lines(entries) =~= cmd_lines(entries[0].0@, entries[0].1) + cmds_lines(
            entries.drop_first(),
        ));
    }
}

/// The text of an alias list splits off its first alias's lines.
pub proof fn lemma_aliases_lines_first(host: Seq<char>, als: Seq<Alias>)
    requires
        als.len() >= 1,
    ensures
        aliases_lines(host, als) == alias_lines(host, als[0]) + aliases_lines(
            host,
            als.drop_first(),
        ),
    decreases als.len(),
{
    if als.len() == 1 {
        assert(als.drop_last() =~= Seq::<Alias>::empty());
        assert(als.drop_first() =~= Seq::<Alias>::empty());
        assert(aliases_lines(host, als) =~= alias_lines(host, als[0]) + aliases_lines(
            host,
            als.drop_first(),
        ));
    } else {
        let dl = als.drop_last();
        lemma_aliases_lines_first(host, dl);
        assert(dl[0] == als[0]);
        assert(als.drop_first().drop_last() =~= dl.drop_first());
        assert(als.drop_first().last() == als.last());
        assert(aliases_lines(host, als) =~= alias_lines(host, als[0]) + aliases_lines(
            host,
            als.drop_first(),
        ));
    }
}

/// Whether the line at `i` is a group header.
fn group_header_at(lines: &Vec<String>, i: usize) -> (r: bool)
    ensures
        r == (i < lines@.len() && shaped(lines@[i as int]@, "[hostlist."@, "]"@)),
{
    if i >= lines.len() {
        return false;
    }
    match header_payload(&lines[i], "[hostlist.", "]") {
        Some(_) => true,
        None => false,
    }
}

/// Whether the line at `i` is a host header.
fn host_header_at(lines: &Vec<String>, i: usize) -> (r: bool)
    ensures
        r == (i < lines@.len() && shaped(lines@[i as int]@, "[hosts."@, "]"@)),
{
    if i >= lines.len() {
        return false;
    }
    match header_payload(&lines[i], "[hosts.", "]") {
        Some(_) => true,
        None => false,
    }
}

/// Whether the line at `i` is an alias header.
fn alias_header_at(lines: &Vec<String>, i: usize) -> (r: bool)
    ensures
        r == (i < lines@.len() && shaped(lines@[i as int]@, "[[hosts."@, ".alias]]"@)),
{
    if i >= lines.len() {
        return false;
    }
    match header_payload(&lines[i], "[[hosts.", ".alias]]") {
        Some(_) => true,
        None => false,
    }
}

/// Whether the line at `i` is a command header.
fn cmd_header_at(lines: &Vec<String>, i: usize) -> (r: bool)
    ensures
        r == (i < lines@.len() && shaped(lines@[i as int]@, "[cmd."@, "]"@)),
{
    if i >= lines.len() {
        return false;
    }
    match header_payload(&lines[i], "[cmd.", "]") {
        Some(_) => true,
        None => false,
    }
}

/// Whether two line sequences carry the same text, character for character.
fn lines_equal(a: &Vec<String>, b: &Vec<String>) -> (r: bool)
    ensures
        r == (str_views(a@) == str_views(b@)),
{
    let n = a.len();
    if n != b.len() {
        proof {
            assert(str_views(a@).len() != str_views(b@).len());
        }
        return false;
    }
    let mut i: usize = 0;
    while i < n
        invariant
            n == a@.len(),
            n == b@.len(),
            i <= n,
            forall|j: int| 0 <= j < i ==> a@[j]@ == b@[j]@,
        decreases n - i,
    {
        if !(a[i] == b[i]) {
            proof {
                assert(str_views(a@)[i as int] == a@[i as int]@);
                assert(str_views(b@)[i as int] == b@[i as int]@);
            }
            return false;
        }
        i += 1;
    }
    proof {
        assert(str_views(a@) =~~= str_views(b@));
    }
    true
}

/// The fixed prefixes tell the four header kinds apart: a host header is
/// never read as a group header.
proof fn lemma_host_hdr_not_group(line: Seq<char>, k: Seq<char>)
    requires
        line == "[hosts."@ + k + "]"@,
    ensures
        !shaped(line, "[hostlist."@, "]"@),
{
    reveal_strlit("[hosts.");
    reveal_strlit("[hostlist.");
    if shaped(line, "[hostlist."@, "]"@) {
        assert(line.take(10)[5] == line[5]);
        assert(line[5] == ("[hosts."@ + k + "]"@)[5]);
        assert(false);
    }
}

/// A command header is never read as a group header.
proof fn lemma_cmd_hdr_not_group(line: Seq<char>, k: Seq<char>)
    requires
        line == "[cmd."@ + k + "]"@,
    ensures
        !shaped(line, "[hostlist."@, "]"@),
{
    reveal_strlit("[cmd.");
    reveal_strlit("[hostlist.");
    if shaped(line, "[hostlist."@, "]"@) {
        assert(line.take(10)[1] == line[1]);
        assert(line[1] == ("[cmd."@ + k + "]"@)[1]);
        assert(false);
    }
}

/// A command header is never read as a host header.
proof fn lemma_cmd_hdr_not_host(line: Seq<char>, k: Seq<char>)
    requires
        line == "[cmd."@ + k + "]"@,
    ensures
        !shaped(line, "[hosts."@, "]"@),
{
    reveal_strlit("[cmd.");
    reveal_strlit("[hosts.");
    if shaped(line, "[hosts."@, "]"@) {
        assert(line.take(7)[1] == line[1]);
        assert(line[1] == ("[cmd."@ + k + "]"@)[1]);
        assert(false);
    }
}

/// A host header is never read as an alias header.
proof fn lemma_host_hdr_not_alias(line: Seq<char>, k: Seq<char>)
    requires
        line == "[hosts."@ + k + "]"@,
    ensures
        !shaped(line, "[[hosts."@, ".alias]]"@),
{
    reveal_strlit("[hosts.");
    reveal_strlit("[[hosts.");
    reveal_strlit(".alias]]");
    if shaped(line, "[[hosts."@, ".alias]]"@) {
        assert(line.take(8)[1] == line[1]);
        assert(line[1] == ("[hosts."@ + k + "]"@)[1]);
        assert(false);
    }
}

/// A command header is never read as an alias header.
proof fn lemma_cmd_hdr_not_alias(line: Seq<char>, k: Seq<char>)
    requires
        line == "[cmd."@ + k + "]"@,
    ensures
        !shaped(line, "[[hosts."@, ".alias]]"@),
{
    reveal_strlit("[cmd.");
    reveal_strlit("[[hosts.");
    reveal_strlit(".alias]]");
    if shaped(line, "[[hosts."@, ".alias]]"@) {
        assert(line.take(8)[1] == line[1]);
        assert(line[1] == ("[cmd."@ + k + "]"@)[1]);
        assert(false);
    }
}

/// A line opening a bracketed section is neither a port line nor a key
/// path line.
proof fn lemma_bracket_line(line: Seq<char>)
    requires
        line.len() >= 1,
        line[0] == '[',
    ensures
        !"port = "@.is_prefix_of(line),
        !shaped(line, "pem = "@ + "\""@, "\""@),
{
    reveal_strlit("port = ");
    reveal_strlit("pem = ");
    reveal_strlit("\"");
    if "port = "@.is_prefix_of(line) {
        assert(line.subrange(0, 7)[0] == line[0]);
        assert(false);
    }
    if shaped(line, "pem = "@ + "\""@, "\""@) {
        assert(line.take(7)[0] == line[0]);
        assert(("pem = "@ + "\""@)[0] == 'p');
        assert(false);
    }
}

/// A key path line is not a port line.
proof fn lemma_pem_not_port(line: Seq<char>, v: Seq<char>)
    requires
        line == "pem = "@ + quoted(v),
    ensures
        !"port = "@.is_prefix_of(line),
{
    reveal_strlit("port = ");
    reveal_strlit("pem = ");
    reveal_strlit("\"");
    if "port = "@.is_prefix_of(line) {
        assert(line.subrange(0, 7)[1] == line[1]);
        assert(line[1] == ("pem = "@ + quoted(v))[1]);
        assert(false);
    }
}


/// Read one host block: the header, the fields, then the alias blocks.
/// On the canonical text of configuration `tw` at host `hk`, this always
/// succeeds, returns that host's name and record, and stands exactly for
/// that host's lines.
#[verifier::rlimit(100)]
fn take_host(
    lines: &Vec<String>,
    i: usize,
    Ghost(gl): Ghost<Seq<Seq<char>>>,
    Ghost(canonical): Ghost<bool>,
    Ghost(tw): Ghost<MusshToml>,
    Ghost(hk): Ghost<int>,
) -> (r: Result<(String, Host, usize), MusshErrKind>)
    requires
        gl == str_views(lines@),
        i < lines@.len(),
        shaped(lines@[i as int]@, "[hosts."@, "]"@),
        canonical ==> {
            &&& 0 <= hk < tw.hosts@.len()
            &&& gl.skip(i as int) == host_lines(tw.hosts@[hk].0@, tw.hosts@[hk].1) + hosts_lines(
                tw.hosts@.skip(hk + 1),
            ) + cmds_lines(tw.cmd@)
        },
    ensures
        r matches Ok(out) ==> i + 3 <= out.2 <= lines@.len(),
        r matches Err(k) ==> k == MusshErrKind::ConfigInvalid,
        canonical ==> r is Ok,
        r matches Ok(out) ==> canonical ==> {
            &&& out.0@ == tw.hosts@[hk].0@
            &&& host_lines(out.0@, out.1) == gl.subrange(i as int, out.2 as int)
            &&& gl.skip(out.2 as int) == hosts_lines(tw.hosts@.skip(hk + 1)) + cmds_lines(tw.cmd@)
        },
{
    let n = lines.len();
    let ghost he: (String, Host) = if canonical {
        tw.hosts@[hk]
    } else {
        vstd::pervasive::arbitrary()
    };
    let ghost hblock = host_lines(he.0@, he.1);
    let ghost hh = host_head_lines(he.0@, he.1);
    let ghost hrest = hosts_lines(tw.hosts@.skip(hk + 1)) + cmds_lines(tw.cmd@);
    let ghost i0 = i as int;
    let mut j = i;
    proof {
        if canonical {
            assert(gl.skip(i0) == hblock + hrest);
            assert(hh.len() >= 3);
            assert(hblock.len() >= hh.len());
            assert(hh[0] == "[hosts."@ + he.0@ + "]"@);
            assert(hh[1] == "hostname = "@ + quoted(he.1.hostname@));
            assert(hh[2] == "username = "@ + quoted(he.1.username@));
            assert(hblock[0] == hh[0]);
            assert(hblock[1] == hh[1]);
            assert(hblock[2] == hh[2]);
            assert(gl.skip(i0)[0] == gl[i0]);
            assert(gl[i0] == hblock[0]);
            assert(gl.skip(i0)[1] == gl[i0 + 1]);
            assert(gl.skip(i0)[2] == gl[i0 + 2]);
            assert(gl[i0 + 1] == hblock[1]);
            assert(gl[i0 + 2] == hblock[2]);
            assert(gl[i0] == lines@[i0]@);
        }
    }
    let key = match header_payload(&lines[j], "[hosts.", "]") {
        Some(x) => x,
        None => {
            proof {
                assert(false);
            }
            vstd::pervasive::unreached()
        },
    };
    proof {
        if canonical {
            lemma_concat_shaped("[hosts."@, he.0@, "]"@);
            assert(key@ == he.0@);
        }
    }
    if n - j < 3 {
        proof {
            if canonical {
                assert(gl.skip(i0).len() >= 3);
            }
        }
        return Err(MusshErrKind::ConfigInvalid);
    }
    let hn = match quoted_payload(&lines[j + 1], "hostname = ") {
        Some(v) => v,
        None => {
            proof {
                if canonical {
                    assert(gl[i0 + 1] == lines@[i0 + 1]@);
                    assert(lines@[i0 + 1]@ =~= ("hostname = "@ + "\""@) + he.1.hostname@ + "\""@);
                    lemma_concat_shaped("hostname = "@ + "\""@, he.1.hostname@, "\""@);
                    assert(false);
                }
            }
            return Err(MusshErrKind::ConfigInvalid);
        },
    };
    let un = match quoted_payload(&lines[j + 2], "username = ") {
        Some(v) => v,
        None => {
            proof {
                if canonical {
                    assert(gl[i0 + 2] == lines@[i0 + 2]@);
                    assert(lines@[i0 + 2]@ =~= ("username = "@ + "\""@) + he.1.username@ + "\""@);
                    lemma_concat_shaped("username = "@ + "\""@, he.1.username@, "\""@);
                    assert(false);
                }
            }
            return Err(MusshErrKind::ConfigInvalid);
        },
    };
    proof {
        if canonical {
            assert(lines@[i0 + 1]@ =~= ("hostname = "@ + "\""@) + he.1.hostname@ + "\""@);
            lemma_concat_shaped("hostname = "@ + "\""@, he.1.hostname@, "\""@);
            assert(hn@ == he.1.hostname@);
            assert(lines@[i0 + 2]@ =~= ("username = "@ + "\""@) + he.1.username@ + "\""@);
            lemma_concat_shaped("username = "@ + "\""@, he.1.username@, "\""@);
            assert(un@ == he.1.username@);
        }
    }
    let mut h = Host { hostname: hn, pem: None, port: None, username: un, alias: Vec::new() };
    j += 3;

    // optional port line
    proof {
        if canonical {
            match he.1.port {
                Some(p0) => {
                    assert(hh[3] == "port = "@ + dec_str(p0 as nat));
                    assert(hblock[3] == hh[3]);
                    assert(gl.skip(i0)[3] == gl[i0 + 3]);
                    assert(gl[i0 + 3] == "port = "@ + dec_str(p0 as nat));
                    assert(gl.skip(i0).len() >= 4);
                    assert((j as int) < n);
                    assert("port = "@.is_prefix_of(gl[i0 + 3])) by {
                        assert("port = "@ =~= gl[i0 + 3].subrange(0, 7)) by {
                            reveal_strlit("port = ");
                        }
                    }
                },
                None => {
                    if (j as int) < n {
                        lemma_port_absent(tw, hk, he, hh, hblock, hrest, gl, i0);
                    }
                },
            }
        }
    }
    let has_port = if j < n {
        starts_with_str(&lines[j], "port = ")
    } else {
        false
    };
    if has_port {
        proof {
            if canonical {
                if he.1.port is None {
                    assert(false);
                }
            }
        }
        let ll = lines[j].as_str().unicode_len();
        let pl = "port = ".unicode_len();
        assert(pl <= ll);
        let digits = slice_chars(&lines[j], pl, ll);
        proof {
            if canonical {
                let p0 = he.1.port.unwrap();
                assert(lines@[j as int]@ == "port = "@ + dec_str(p0 as nat));
                assert(digits@ =~= dec_str(p0 as nat)) by {
                    reveal_strlit("port = ");
                }
            }
        }
        match parse_port(&digits) {
            Some(p) => {
                h.port = Some(p);
                proof {
                    if canonical {
                        assert(p == he.1.port.unwrap());
                    }
                }
            },
            None => {
                proof {
                    if canonical {
                        assert(false);
                    }
                }
                return Err(MusshErrKind::ConfigInvalid);
            },
        }
        j += 1;
    } else {
        proof {
            if canonical {
                if he.1.port is Some {
                    assert(false);
                }
            }
        }
    }

    // optional key path line
    proof {
        if canonical {
            let off = if he.1.port is Some {
                4int
            } else {
                3int
            };
            assert(j as int == i0 + off);
            match he.1.pem {
                Some(pv) => {
                    assert(hh[off] == "pem = "@ + quoted(pv@));
                    assert(hblock[off] == hh[off]);
                    assert(gl.skip(i0)[off] == gl[i0 + off]);
                    assert(gl[i0 + off] == "pem = "@ + quoted(pv@));
                    assert(gl.skip(i0).len() > off);
                    assert((j as int) < n);
                },
                None => {
                    if (j as int) < n {
                        lemma_pem_absent(tw, hk, he, hh, hblock, hrest, gl, i0);
                    }
                },
            }
        }
    }
    if j < n {
        match quoted_payload(&lines[j], "pem = ") {
            Some(v) => {
                proof {
                    if canonical {
                        if he.1.pem is None {
                            assert(false);
                        }
                        let pv = he.1.pem.unwrap();
                        assert(lines@[j as int]@ =~= ("pem = "@ + "\""@) + pv@ + "\""@);
                        lemma_concat_shaped("pem = "@ + "\""@, pv@, "\""@);
                        assert(v@ == pv@);
                    }
                }
                h.pem = Some(v);
                j += 1;
            },
            None => {
                proof {
                    if canonical {
                        if he.1.pem is Some {
                            let pv = he.1.pem.unwrap();
                            assert(lines@[j as int]@ =~= ("pem = "@ + "\""@) + pv@ + "\""@);
                            lemma_concat_shaped("pem = "@ + "\""@, pv@, "\""@);
                            assert(false);
                        }
                    }
                }
            },
        }
    } else {
        proof {
            if canonical {
                if he.1.pem is Some {
                    assert(false);
                }
            }
        }
    }

    let ghost ihead = j as int;
    proof {
        if canonical {
            assert(host_head_lines(key@, h) =~= gl.subrange(i0, ihead));
            assert(aliases_lines(key@, h.alias@) =~= gl.subrange(ihead, ihead));
            assert(gl.skip(ihead) =~= aliases_lines(he.0@, he.1.alias@.skip(0)) + hrest) by {
                assert(he.1.alias@.skip(0) =~= he.1.alias@);
                assert(hblock =~= hh + aliases_lines(he.0@, he.1.alias@));
                assert(gl.skip(i0).skip(ihead - i0) =~= gl.skip(ihead));
            };
        }
    }
    let ghost mut ak: int = 0;
    while alias_header_at(lines, j)
        invariant
            n == lines@.len(),
            gl == str_views(lines@),
            j <= n,
            i + 3 <= j,
            canonical ==> {
                &&& 0 <= hk < tw.hosts@.len()
                &&& he == tw.hosts@[hk]
                &&& key@ == he.0@
                &&& 0 <= ak <= he.1.alias@.len()
                &&& h.alias@.len() == ak
                &&& 0 <= i0 <= ihead <= j as int
                &&& host_head_lines(key@, h) == gl.subrange(i0, ihead)
                &&& aliases_lines(key@, h.alias@) == gl.subrange(ihead, j as int)
                &&& gl.skip(j as int) == aliases_lines(he.0@, he.1.alias@.skip(ak)) + hosts_lines(
                    tw.hosts@.skip(hk + 1),
                ) + cmds_lines(tw.cmd@)
            },
        decreases n - j,
    {
        proof {
            if canonical {
                assert(gl.skip(j as int)[0] == gl[j as int]);
                assert(gl[j as int] == lines@[j as int]@);
                if ak == he.1.alias@.len() {
                    assert(he.1.alias@.skip(ak) =~= Seq::<Alias>::empty());
                    let suf = hosts_lines(tw.hosts@.skip(hk + 1)) + cmds_lines(tw.cmd@);
                    assert(gl.skip(j as int) =~= suf);
                    if tw.hosts@.skip(hk + 1).len() >= 1 {
                        lemma_hosts_lines_first(tw.hosts@.skip(hk + 1));
                        let e0 = tw.hosts@.skip(hk + 1)[0];
                        assert(host_lines(e0.0@, e0.1)[0] == "[hosts."@ + e0.0@ + "]"@);
                        assert(gl[j as int] == "[hosts."@ + e0.0@ + "]"@);
                        lemma_host_hdr_not_alias(gl[j as int], e0.0@);
                    } else if tw.cmd@.len() >= 1 {
                        lemma_cmds_lines_first(tw.cmd@);
                        let k0 = tw.cmd@[0].0@;
                        assert(cmd_lines(k0, tw.cmd@[0].1)[0] == "[cmd."@ + k0 + "]"@);
                        assert(hosts_lines(tw.hosts@.skip(hk + 1)) =~= Seq::<Seq<char>>::empty());
                        assert(gl[j as int] == "[cmd."@ + k0 + "]"@);
                        lemma_cmd_hdr_not_alias(gl[j as int], k0);
                    } else {
                        assert(gl.skip(j as int).len() == 0);
                    }
                    assert(false);
                }
                lemma_aliases_lines_first(he.0@, he.1.alias@.skip(ak));
                assert(he.1.alias@.skip(ak)[0] == he.1.alias@[ak]);
                assert(he.1.alias@.skip(ak).drop_first() =~= he.1.alias@.skip(ak + 1));
                let ab = alias_lines(he.0@, he.1.alias@[ak]);
                assert(ab[0] == "[[hosts."@ + he.0@ + ".alias]]"@);
                assert(gl[j as int] == ab[0]);
                assert(gl.skip(j as int)[1] == gl[j as int + 1]);
                assert(gl.skip(j as int)[2] == gl[j as int + 2]);
                assert(gl[j as int + 1] == ab[1]);
                assert(gl[j as int + 2] == ab[2]);
                assert(ab[1] == "command = "@ + quoted(he.1.alias@[ak].command@));
                assert(ab[2] == "aliasfor = "@ + quoted(he.1.alias@[ak].aliasfor@));
            }
        }
        if n - j < 3 {
            proof {
                if canonical {
                    assert(gl.skip(j as int).len() >= 3);
                }
            }
            return Err(MusshErrKind::ConfigInvalid);
        }
        let ac = match quoted_payload(&lines[j + 1], "command = ") {
            Some(v) => v,
            None => {
                proof {
                    if canonical {
                        let av = he.1.alias@[ak].command@;
                        assert(gl[j as int + 1] == lines@[j as int + 1]@);
                        assert(lines@[j as int + 1]@ =~= ("command = "@ + "\""@) + av + "\""@);
                        lemma_concat_shaped("command = "@ + "\""@, av, "\""@);
                        assert(false);
                    }
                }
                return Err(MusshErrKind::ConfigInvalid);
            },
        };
        let af = match quoted_payload(&lines[j + 2], "aliasfor = ") {
            Some(v) => v,
            None => {
                proof {
                    if canonical {
                        let av = he.1.alias@[ak].aliasfor@;
                        assert(gl[j as int + 2] == lines@[j as int + 2]@);
                        assert(lines@[j as int + 2]@ =~= ("aliasfor = "@ + "\""@) + av + "\""@);
                        lemma_concat_shaped("aliasfor = "@ + "\""@, av, "\""@);
                        assert(false);
                    }
                }
                return Err(MusshErrKind::ConfigInvalid);
            },
        };
        let ghost pre_alias = h.alias@;
        h.alias.push(Alias { command: ac, aliasfor: af });
        proof {
            if canonical {
                let av1 = he.1.alias@[ak].command@;
                let av2 = he.1.alias@[ak].aliasfor@;
                assert(lines@[j as int + 1]@ =~= ("command = "@ + "\""@) + av1 + "\""@);
                lemma_concat_shaped("command = "@ + "\""@, av1, "\""@);
                assert(ac@ == av1);
                assert(lines@[j as int + 2]@ =~= ("aliasfor = "@ + "\""@) + av2 + "\""@);
                lemma_concat_shaped("aliasfor = "@ + "\""@, av2, "\""@);
                assert(af@ == av2);
                assert(h.alias@.drop_last() =~= pre_alias);
                assert(host_head_lines(key@, h) =~= gl.subrange(i0, ihead));
                assert(alias_lines(key@, h.alias@.last()) =~= gl.subrange(
                    j as int,
                    j as int + 3,
                ));
                assert(aliases_lines(key@, h.alias@) == aliases_lines(key@, pre_alias)
                    + alias_lines(key@, h.alias@.last()));
                assert(aliases_lines(key@, pre_alias) == gl.subrange(ihead, j as int));
                assert(gl.subrange(ihead, j as int) + gl.subrange(j as int, j as int + 3)
                    =~= gl.subrange(ihead, j as int + 3));
                assert(aliases_lines(key@, h.alias@) =~= gl.subrange(ihead, j as int + 3));
                assert(gl.skip(j as int).skip(3) =~= gl.skip(j as int + 3));
                assert(gl.skip(j as int + 3) =~= aliases_lines(he.0@, he.1.alias@.skip(ak + 1))
                    + hosts_lines(tw.hosts@.skip(hk + 1)) + cmds_lines(tw.cmd@));
                ak = ak + 1;
            }
        }
        j += 3;
    }
    proof {
        if canonical {
            if ak < he.1.alias@.len() {
                lemma_aliases_lines_first(he.0@, he.1.alias@.skip(ak));
                assert(he.1.alias@.skip(ak)[0] == he.1.alias@[ak]);
                let ab = alias_lines(he.0@, he.1.alias@[ak]);
                assert(gl.skip(j as int)[0] == gl[j as int]);
                assert(gl[j as int] == ab[0]);
                assert(ab[0] == "[[hosts."@ + he.0@ + ".alias]]"@);
                lemma_concat_shaped("[[hosts."@, he.0@, ".alias]]"@);
                assert(gl.skip(j as int).len() >= 3);
                assert(gl[j as int] == lines@[j as int]@);
                assert(false);
            }
            assert(he.1.alias@.skip(ak) =~= Seq::<Alias>::empty());
            assert(host_lines(key@, h) =~= gl.subrange(i0, j as int));
            assert(gl.skip(j as int) =~= hosts_lines(tw.hosts@.skip(hk + 1)) + cmds_lines(
                tw.cmd@,
            ));
        }
    }
    Ok((key, h, j))
}

/// Read a configuration back from its canonical lines.
///
/// Whatever the writer emits is accepted: a text that is the canonical
/// rendering of some configuration always loads.  And whatever loads writes
/// back out as exactly the lines that were read, so storing and reloading a
/// configuration is stable.  Text in any other shape is refused with
/// `ConfigInvalid`.
#[verifier::rlimit(100)]
pub fn parse_lines(lines: &Vec<String>) -> (r: Result<MusshToml, MusshErrKind>)
    ensures
        r matches Ok(t) ==> serialize_lines_spec(t) == str_views(lines@),
        r matches Err(k) ==> k == MusshErrKind::ConfigInvalid,
        (exists|t: MusshToml| serialize_lines_spec(t) == str_views(lines@)) ==> r is Ok,
{
    let ghost gl = str_views(lines@);
    let ghost canonical = exists|t: MusshToml| serialize_lines_spec(t) == gl;
    let ghost tw: MusshToml = if canonical {
        choose|t: MusshToml| serialize_lines_spec(t) == gl
    } else {
        vstd::pervasive::arbitrary()
    };
    proof {
        if canonical {
            assert(serialize_lines_spec(tw) == gl);
        }
    }
    let n = lines.len();
    let mut toml = MusshToml::default();
    let mut i: usize = 0;
    let ghost mut gk: int = 0;

    // host groups
    proof {
        if canonical {
            assert(gl.skip(0) =~= gl);
            assert(tw.hostlist@.skip(0) =~= tw.hostlist@);
            assert(groups_lines(toml.hostlist@) =~= gl.take(0));
        }
    }
    while group_header_at(lines, i)
        invariant
            n == lines@.len(),
            gl == str_views(lines@),
            i <= n,
            toml.hosts@.len() == 0,
            toml.cmd@.len() == 0,
            canonical == (exists|t: MusshToml| serialize_lines_spec(t) == gl),
            canonical ==> {
                &&& serialize_lines_spec(tw) == gl
                &&& 0 <= gk <= tw.hostlist@.len()
                &&& gl.skip(i as int) == groups_lines(tw.hostlist@.skip(gk)) + hosts_lines(
                    tw.hosts@,
                ) + cmds_lines(tw.cmd@)
                &&& groups_lines(toml.hostlist@) == gl.take(i as int)
            },
        decreases n - i,
    {
        proof {
            if canonical {
                assert(gl[i as int] == lines@[i as int]@);
                if gk == tw.hostlist@.len() {
                    assert(tw.hostlist@.skip(gk) =~= Seq::<(String, Hosts)>::empty());
                    let suf = hosts_lines(tw.hosts@) + cmds_lines(tw.cmd@);
                    assert(gl.skip(i as int) =~= suf);
                    if tw.hosts@.len() >= 1 {
                        lemma_hosts_lines_first(tw.hosts@);
                        let k0 = tw.hosts@[0].0@;
                        let h0 = tw.hosts@[0].1;
                        assert(host_lines(k0, h0)[0] == "[hosts."@ + k0 + "]"@);
                        assert(gl[i as int] == "[hosts."@ + k0 + "]"@);
                        lemma_host_hdr_not_group(gl[i as int], k0);
                    } else if tw.cmd@.len() >= 1 {
                        lemma_cmds_lines_first(tw.cmd@);
                        let k0 = tw.cmd@[0].0@;
                        assert(cmd_lines(k0, tw.cmd@[0].1)[0] == "[cmd."@ + k0 + "]"@);
                        assert(gl[i as int] == "[cmd."@ + k0 + "]"@);
                        lemma_cmd_hdr_not_group(gl[i as int], k0);
                    } else {
                        assert(gl.skip(i as int).len() == 0);
                    }
                    assert(false);
                }
                lemma_groups_lines_first(tw.hostlist@.skip(gk));
                assert(tw.hostlist@.skip(gk)[0] == tw.hostlist@[gk]);
                assert(tw.hostlist@.skip(gk).drop_first() =~= tw.hostlist@.skip(gk + 1));
            }
        }
        let ghost ge = if canonical {
            tw.hostlist@[gk]
        } else {
            vstd::pervasive::arbitrary()
        };
        let name = match header_payload(&lines[i], "[hostlist.", "]") {
            Some(x) => x,
            None => {
                proof {
                    assert(false);
                }
                vstd::pervasive::unreached()
            },
        };
        proof {
            if canonical {
                assert(gl.skip(i as int)[0] == gl[i as int]);
                assert(gl[i as int] == "[hostlist."@ + ge.0@ + "]"@);
                lemma_concat_shaped("[hostlist."@, ge.0@, "]"@);
                assert(name@ == ge.0@);
                assert(gl.skip(i as int)[1] == gl[i + 1]);
                assert(gl[i + 1] == "hostnames = ["@ + joined_quoted(str_views(ge.1.hostnames@))
                    + "]"@);
            }
        }
        if n - i < 2 {
            proof {
                if canonical {
                    assert(gl.skip(i as int).len() >= 2);
                }
            }
            return Err(MusshErrKind::ConfigInvalid);
        }
        let names = match parse_name_array(&lines[i + 1]) {
            Some(v) => v,
            None => {
                proof {
                    if canonical {
                        assert(gl[i + 1] == lines@[i + 1]@);
                        assert(false);
                    }
                }
                return Err(MusshErrKind::ConfigInvalid);
            },
        };
        let ghost pre_hl = toml.hostlist@;
        toml.hostlist.push((name, Hosts { hostnames: names }));
        proof {
            if canonical {
                let e2 = toml.hostlist@.last();
                assert(toml.hostlist@.drop_last() =~= pre_hl);
                assert(group_lines(e2.0@, e2.1) =~= gl.subrange(i as int, i + 2)) by {
                    assert(gl[i + 1] == lines@[i + 1]@);
                    assert(e2.0@ == ge.0@);
                    assert(str_views(e2.1.hostnames@) == str_views(names@));
                }
                assert(groups_lines(toml.hostlist@) =~= gl.take(i + 2));
                assert(gl.skip(i as int).skip(2) =~= gl.skip(i + 2));
                assert(gl.skip(i + 2) =~= groups_lines(tw.hostlist@.skip(gk + 1)) + hosts_lines(
                    tw.hosts@,
                ) + cmds_lines(tw.cmd@));
                gk = gk + 1;
            }
        }
        i += 2;
    }
    proof {
        if canonical {
            if gk < tw.hostlist@.len() {
                lemma_groups_lines_first(tw.hostlist@.skip(gk));
                assert(tw.hostlist@.skip(gk)[0] == tw.hostlist@[gk]);
                let ge = tw.hostlist@[gk];
                assert(gl.skip(i as int)[0] == gl[i as int]);
                assert(gl[i as int] == "[hostlist."@ + ge.0@ + "]"@);
                lemma_concat_shaped("[hostlist."@, ge.0@, "]"@);
                assert(gl.skip(i as int).len() >= 2);
                assert(gl[i as int] == lines@[i as int]@);
                assert(false);
            }
            assert(tw.hostlist@.skip(gk) =~= Seq::<(String, Hosts)>::empty());
            assert(gl.skip(i as int) =~= hosts_lines(tw.hosts@) + cmds_lines(tw.cmd@));
        }
    }

    // hosts
    let ghost mut hk: int = 0;
    proof {
        if canonical {
            assert(tw.hosts@.skip(0) =~= tw.hosts@);
            assert(hosts_lines(toml.hosts@) =~= Seq::<Seq<char>>::empty());
            assert(groups_lines(toml.hostlist@) + hosts_lines(toml.hosts@) =~= gl.take(i as int));
        }
    }
    while host_header_at(lines, i)
        invariant
            n == lines@.len(),
            gl == str_views(lines@),
            i <= n,
            toml.cmd@.len() == 0,
            canonical == (exists|t: MusshToml| serialize_lines_spec(t) == gl),
            canonical ==> {
                &&& serialize_lines_spec(tw) == gl
                &&& 0 <= hk <= tw.hosts@.len()
                &&& gl.skip(i as int) == hosts_lines(tw.hosts@.skip(hk)) + cmds_lines(tw.cmd@)
                &&& groups_lines(toml.hostlist@) + hosts_lines(toml.hosts@) == gl.take(i as int)
            },
        decreases n - i,
    {
        proof {
            if canonical {
                assert(gl[i as int] == lines@[i as int]@);
                assert(gl.skip(i as int)[0] == gl[i as int]);
                if hk == tw.hosts@.len() {
                    assert(tw.hosts@.skip(hk) =~= Seq::<(String, Host)>::empty());
                    assert(gl.skip(i as int) =~= cmds_lines(tw.cmd@));
                    if tw.cmd@.len() >= 1 {
                        lemma_cmds_lines_first(tw.cmd@);
                        let k0 = tw.cmd@[0].0@;
                        assert(cmd_lines(k0, tw.cmd@[0].1)[0] == "[cmd."@ + k0 + "]"@);
                        assert(gl[i as int] == "[cmd."@ + k0 + "]"@);
                        lemma_cmd_hdr_not_host(gl[i as int], k0);
                    } else {
                        assert(gl.skip(i as int).len() == 0);
                    }
                    assert(false);
                }
                lemma_hosts_lines_first(tw.hosts@.skip(hk));
                assert(tw.hosts@.skip(hk)[0] == tw.hosts@[hk]);
                assert(tw.hosts@.skip(hk).drop_first() =~= tw.hosts@.skip(hk + 1));
            }
        }
        let (key, h, j) = match take_host(lines, i, Ghost(gl), Ghost(canonical), Ghost(tw), Ghost(
            hk,
        )) {
            Ok(out) => out,
            Err(_) => {
                proof {
                    if canonical {
                        assert(false);
                    }
                }
                return Err(MusshErrKind::ConfigInvalid);
            },
        };
        let ghost pre_hosts = toml.hosts@;
        toml.hosts.push((key, h));
        proof {
            if canonical {
                assert(toml.hosts@.drop_last() =~= pre_hosts);
                let e2 = toml.hosts@.last();
                assert(host_lines(e2.0@, e2.1) == gl.subrange(i as int, j as int));
                assert(hosts_lines(toml.hosts@) =~= hosts_lines(pre_hosts) + host_lines(
                    e2.0@,
                    e2.1,
                ));
                assert(groups_lines(toml.hostlist@) + hosts_lines(toml.hosts@) =~= gl.take(
                    j as int,
                ));
                assert(gl.skip(j as int) == hosts_lines(tw.hosts@.skip(hk + 1)) + cmds_lines(
                    tw.cmd@,
                ));
                hk = hk + 1;
            }
        }
        i = j;
    }
    proof {
        if canonical {
            if hk < tw.hosts@.len() {
                lemma_hosts_lines_first(tw.hosts@.skip(hk));
                assert(tw.hosts@.skip(hk)[0] == tw.hosts@[hk]);
                let e0 = tw.hosts@[hk];
                assert(gl.skip(i as int)[0] == gl[i as int]);
                assert(gl[i as int] == host_lines(e0.0@, e0.1)[0]);
                assert(host_lines(e0.0@, e0.1)[0] == "[hosts."@ + e0.0@ + "]"@);
                lemma_concat_shaped("[hosts."@, e0.0@, "]"@);
                assert(gl.skip(i as int).len() >= 3);
                assert(gl[i as int] == lines@[i as int]@);
                assert(false);
            }
            assert(tw.hosts@.skip(hk) =~= Seq::<(String, Host)>::empty());
            assert(gl.skip(i as int) =~= cmds_lines(tw.cmd@));
        }
    }

    // commands
    let ghost mut ck: int = 0;
    proof {
        if canonical {
            assert(tw.cmd@.skip(0) =~= tw.cmd@);
            assert(cmds_lines(toml.cmd@) =~= Seq::<Seq<char>>::empty());
            assert(groups_lines(toml.hostlist@) + hosts_lines(toml.hosts@) + cmds_lines(toml.cmd@)
                =~= gl.take(i as int));
        }
    }
    while cmd_header_at(lines, i)
        invariant
            n == lines@.len(),
            gl == str_views(lines@),
            i <= n,
            canonical == (exists|t: MusshToml| serialize_lines_spec(t) == gl),
            canonical ==> {
                &&& serialize_lines_spec(tw) == gl
                &&& 0 <= ck <= tw.cmd@.len()
                &&& gl.skip(i as int) == cmds_lines(tw.cmd@.skip(ck))
                &&& groups_lines(toml.hostlist@) + hosts_lines(toml.hosts@) + cmds_lines(
                    toml.cmd@,
                ) == gl.take(i as int)
            },
        decreases n - i,
    {
        proof {
            if canonical {
                assert(gl[i as int] == lines@[i as int]@);
                assert(gl.skip(i as int)[0] == gl[i as int]);
                if ck == tw.cmd@.len() {
                    assert(tw.cmd@.skip(ck) =~= Seq::<(String, Command)>::empty());
                    assert(gl.skip(i as int).len() == 0);
                    assert(false);
                }
                lemma_cmds_lines_first(tw.cmd@.skip(ck));
                assert(tw.cmd@.skip(ck)[0] == tw.cmd@[ck]);
                assert(tw.cmd@.skip(ck).drop_first() =~= tw.cmd@.skip(ck + 1));
            }
        }
        let ghost ce: (String, Command) = if canonical {
            tw.cmd@[ck]
        } else {
            vstd::pervasive::arbitrary()
        };
        let name = match header_payload(&lines[i], "[cmd.", "]") {
            Some(x) => x,
            None => {
                proof {
                    assert(false);
                }
                vstd::pervasive::unreached()
            },
        };
        proof {
            if canonical {
                assert(gl[i as int] == "[cmd."@ + ce.0@ + "]"@);
                lemma_concat_shaped("[cmd."@, ce.0@, "]"@);
                assert(name@ == ce.0@);
                assert(gl.skip(i as int)[1] == gl[i as int + 1]);
                assert(gl[i as int + 1] == "command = "@ + quoted(ce.1.command@));
            }
        }
        if n - i < 2 {
            proof {
                if canonical {
                    assert(gl.skip(i as int).len() >= 2);
                }
            }
            return Err(MusshErrKind::ConfigInvalid);
        }
        let cv = match quoted_payload(&lines[i + 1], "command = ") {
            Some(v) => v,
            None => {
                proof {
                    if canonical {
                        assert(gl[i as int + 1] == lines@[i as int + 1]@);
                        assert(lines@[i as int + 1]@ =~= ("command = "@ + "\""@) + ce.1.command@
                            + "\""@);
                        lemma_concat_shaped("command = "@ + "\""@, ce.1.command@, "\""@);
                        assert(false);
                    }
                }
                return Err(MusshErrKind::ConfigInvalid);
            },
        };
        let ghost pre_cl = toml.cmd@;
        toml.cmd.push((name, Command { command: cv }));
        proof {
            if canonical {
                assert(lines@[i as int + 1]@ =~= ("command = "@ + "\""@) + ce.1.command@
                    + "\""@);
                lemma_concat_shaped("command = "@ + "\""@, ce.1.command@, "\""@);
                assert(cv@ == ce.1.command@);
                let e2 = toml.cmd@.last();
                assert(toml.cmd@.drop_last() =~= pre_cl);
                assert(cmd_lines(e2.0@, e2.1) =~= gl.subrange(i as int, i as int + 2));
                assert(cmds_lines(toml.cmd@) =~= cmds_lines(pre_cl) + cmd_lines(e2.0@, e2.1));
                assert(groups_lines(toml.hostlist@) + hosts_lines(toml.hosts@) + cmds_lines(
                    toml.cmd@,
                ) =~= gl.take(i as int + 2));
                assert(gl.skip(i as int).skip(2) =~= gl.skip(i as int + 2));
                assert(gl.skip(i as int + 2) =~= cmds_lines(tw.cmd@.skip(ck + 1)));
                ck = ck + 1;
            }
        }
        i += 2;
    }
    proof {
        if canonical {
            if ck < tw.cmd@.len() {
                lemma_cmds_lines_first(tw.cmd@.skip(ck));
                assert(tw.cmd@.skip(ck)[0] == tw.cmd@[ck]);
                let ce = tw.cmd@[ck];
                assert(gl.skip(i as int)[0] == gl[i as int]);
                assert(gl[i as int] == "[cmd."@ + ce.0@ + "]"@);
                lemma_concat_shaped("[cmd."@, ce.0@, "]"@);
                assert(gl.skip(i as int).len() >= 2);
                assert(gl[i as int] == lines@[i as int]@);
                assert(false);
            }
            assert(tw.cmd@.skip(ck) =~= Seq::<(String, Command)>::empty());
            assert(gl.skip(i as int).len() == 0);
            assert(i as int == n as int);
            assert(gl.take(i as int) =~= gl);
            assert(serialize_lines_spec(toml) == gl);
        }
    }

    // only a text that writes back out unchanged is accepted
    let back = serialize_lines(&toml);
    proof {
        if canonical {
            assert(str_views(back@) == gl);
        }
    }
    if lines_equal(&back, lines) {
        Ok(toml)
    } else {
        proof {
            if canonical {
                assert(false);
            }
        }
        Err(MusshErrKind::ConfigInvalid)
    }
}

/// When the host's record carries no port, the line after its username is
/// never a port line: it opens a bracketed section or names the key path.
proof fn lemma_port_absent(
    tw: MusshToml,
    hk: int,
    he: (String, Host),
    hh: Seq<Seq<char>>,
    hblock: Seq<Seq<char>>,
    hrest: Seq<Seq<char>>,
    gl: Seq<Seq<char>>,
    i0: int,
)
    requires
        0 <= hk < tw.hosts@.len(),
        he == tw.hosts@[hk],
        he.1.port is None,
        hh == host_head_lines(he.0@, he.1),
        hblock == host_lines(he.0@, he.1),
        hrest == hosts_lines(tw.hosts@.skip(hk + 1)) + cmds_lines(tw.cmd@),
        gl.skip(i0) == hblock + hrest,
        0 <= i0,
        i0 + 3 < gl.len(),
    ensures
        !"port = "@.is_prefix_of(gl[i0 + 3]),
{
    let line = gl[i0 + 3];
    assert(gl.skip(i0)[3] == line);
    match he.1.pem {
        Some(pv) => {
            assert(hh[3] == "pem = "@ + quoted(pv@));
            assert(hblock[3] == hh[3]);
            assert(line == "pem = "@ + quoted(pv@));
            lemma_pem_not_port(line, pv@);
        },
        None => {
            assert(hh.len() == 3);
            if he.1.alias@.len() >= 1 {
                lemma_aliases_lines_first(he.0@, he.1.alias@);
                let ab = alias_lines(he.0@, he.1.alias@[0]);
                assert(hblock[3] == ab[0]);
                assert(line == "[[hosts."@ + he.0@ + ".alias]]"@);
                assert(line.len() >= 1 && line[0] == '[') by {
                    reveal_strlit("[[hosts.");
                }
                lemma_bracket_line(line);
            } else {
                assert(hblock.len() == 3);
                lemma_next_block_not_field(tw, hk, hrest, line);
            }
        },
    }
}

/// When the host's record carries no key path, the next line never names
/// one: it opens a bracketed section.
proof fn lemma_pem_absent(
    tw: MusshToml,
    hk: int,
    he: (String, Host),
    hh: Seq<Seq<char>>,
    hblock: Seq<Seq<char>>,
    hrest: Seq<Seq<char>>,
    gl: Seq<Seq<char>>,
    i0: int,
)
    requires
        0 <= hk < tw.hosts@.len(),
        he == tw.hosts@[hk],
        he.1.pem is None,
        hh == host_head_lines(he.0@, he.1),
        hblock == host_lines(he.0@, he.1),
        hrest == hosts_lines(tw.hosts@.skip(hk + 1)) + cmds_lines(tw.cmd@),
        gl.skip(i0) == hblock + hrest,
        0 <= i0,
        i0 + hh.len() < gl.len(),
    ensures
        !shaped(gl[i0 + hh.len()], "pem = "@ + "\""@, "\""@),
{
    let off = hh.len() as int;
    let line = gl[i0 + off];
    assert(gl.skip(i0)[off] == line);
    if he.1.alias@.len() >= 1 {
        lemma_aliases_lines_first(he.0@, he.1.alias@);
        let ab = alias_lines(he.0@, he.1.alias@[0]);
        assert(hblock[off] == ab[0]);
        assert(line == "[[hosts."@ + he.0@ + ".alias]]"@);
        assert(line.len() >= 1 && line[0] == '[') by {
            reveal_strlit("[[hosts.");
        }
        lemma_bracket_line(line);
    } else {
        assert(hblock.len() == off);
        lemma_next_block_not_field(tw, hk, hrest, line);
    }
}

/// The first line after a finished host block opens a bracketed section.
proof fn lemma_next_block_not_field(
    tw: MusshToml,
    hk: int,
    hrest: Seq<Seq<char>>,
    line: Seq<char>,
)
    requires
        0 <= hk < tw.hosts@.len(),
        hrest == hosts_lines(tw.hosts@.skip(hk + 1)) + cmds_lines(tw.cmd@),
        hrest.len() >= 1,
        line == hrest[0],
    ensures
        !"port = "@.is_prefix_of(line),
        !shaped(line, "pem = "@ + "\""@, "\""@),
{
    if tw.hosts@.skip(hk + 1).len() >= 1 {
        lemma_hosts_lines_first(tw.hosts@.skip(hk + 1));
        let e0 = tw.hosts@.skip(hk + 1)[0];
        assert(host_lines(e0.0@, e0.1)[0] == "[hosts."@ + e0.0@ + "]"@);
        assert(line == "[hosts."@ + e0.0@ + "]"@);
        assert(line.len() >= 1 && line[0] == '[') by {
            reveal_strlit("[hosts.");
        }
        lemma_bracket_line(line);
    } else {
        assert(hosts_lines(tw.hosts@.skip(hk + 1)) =~= Seq::<Seq<char>>::empty());
        lemma_cmds_lines_first(tw.cmd@);
        let k0 = tw.cmd@[0].0@;
        assert(cmd_lines(k0, tw.cmd@[0].1)[0] == "[cmd."@ + k0 + "]"@);
        assert(line == "[cmd."@ + k0 + "]"@);
        assert(line.len() >= 1 && line[0] == '[') by {
            reveal_strlit("[cmd.");
        }
        lemma_bracket_line(line);
    }
}

} // verus!
