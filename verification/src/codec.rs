use vstd::prelude::*;

use crate::config::{ConfigState, Node, NodePool, NodeV, PoolV, Rule, RuleProtocol, RulePort,
    RuleSet, RuleSetV, RuleV};

verus! {

// The snapshot encoding: a single JSON document with the three top-level
// sections, objects written without any whitespace, object members in the
// maps' own entry order, a port selector written as a bare number or as a
// `start`/`end` object.
/// Escape of one character inside a JSON string: quote and backslash get a
/// leading backslash, everything else stands as itself.
pub open spec fn esc_char(c: char) -> Seq<char> {
    if c == '"' || c == '\\' {
        seq!['\\', c]
    } else {
        seq![c]
    }
}

/// Escaped body of a JSON string.
pub open spec fn esc(s: Seq<char>) -> Seq<char>
    decreases s.len(),
{
    if s.len() == 0 {
        Seq::empty()
    } else {
        esc_char(s[0]) + esc(s.drop_first())
    }
}

/// A quoted, escaped JSON string.
pub open spec fn enc_str(s: Seq<char>) -> Seq<char> {
    seq!['"'] + esc(s) + seq!['"']
}

/// Comma-joined items.
pub open spec fn join(items: Seq<Seq<char>>) -> Seq<char>
    decreases items.len(),
{
    if items.len() == 0 {
        Seq::empty()
    } else if items.len() == 1 {
        items[0]
    } else {
        join(items.drop_last()) + seq![','] + items.last()
    }
}

/// A JSON object from already-encoded member keys and values.
pub open spec fn enc_obj(entries: Seq<(Seq<char>, Seq<char>)>) -> Seq<char> {
    seq!['{'] + join(entries.map_values(|e: (Seq<char>, Seq<char>)| enc_str(e.0) + seq![':']
        + e.1)) + seq!['}']
}

/// A JSON array from already-encoded items.
pub open spec fn enc_arr(items: Seq<Seq<char>>) -> Seq<char> {
    seq!['['] + join(items) + seq![']']
}

/// Decimal digits of `n`, most significant first.
pub open spec fn dec(n: nat) -> Seq<char>
    decreases n,
{
    if n < 10 {
        seq![digit_char(n)]
    } else {
        dec(n / 10) + seq![digit_char(n % 10)]
    }
}

pub open spec fn digit_char(d: nat) -> char {
    if d == 0 {
        '0'
    } else if d == 1 {
        '1'
    } else if d == 2 {
        '2'
    } else if d == 3 {
        '3'
    } else if d == 4 {
        '4'
    } else if d == 5 {
        '5'
    } else if d == 6 {
        '6'
    } else if d == 7 {
        '7'
    } else if d == 8 {
        '8'
    } else {
        '9'
    }
}

pub open spec fn k_hostname() -> Seq<char> {
    seq!['h', 'o', 's', 't', 'n', 'a', 'm', 'e']
}

pub open spec fn k_ip() -> Seq<char> {
    seq!['i', 'p']
}

pub open spec fn k_nodes() -> Seq<char> {
    seq!['n', 'o', 'd', 'e', 's']
}

pub open spec fn k_rules() -> Seq<char> {
    seq!['r', 'u', 'l', 'e', 's']
}

pub open spec fn k_protocol() -> Seq<char> {
    seq!['p', 'r', 'o', 't', 'o', 'c', 'o', 'l']
}

pub open spec fn k_ports() -> Seq<char> {
    seq!['p', 'o', 'r', 't', 's']
}

pub open spec fn k_nodepools() -> Seq<char> {
    seq!['n', 'o', 'd', 'e', 'p', 'o', 'o', 'l', 's']
}

pub open spec fn k_start() -> Seq<char> {
    seq!['s', 't', 'a', 'r', 't']
}

pub open spec fn k_end() -> Seq<char> {
    seq!['e', 'n', 'd']
}

pub open spec fn k_rulesets() -> Seq<char> {
    seq!['r', 'u', 'l', 'e', 's', 'e', 't', 's']
}

pub open spec fn k_dependency_tree() -> Seq<char> {
    seq!['d', 'e', 'p', 'e', 'n', 'd', 'e', 'n', 'c', 'y', '_', 't', 'r', 'e', 'e']
}

pub open spec fn enc_protocol(p: RuleProtocol) -> Seq<char> {
    match p {
        RuleProtocol::TCP => enc_str(seq!['t', 'c', 'p']),
        RuleProtocol::UDP => enc_str(seq!['u', 'd', 'p']),
    }
}

pub open spec fn enc_port(p: RulePort) -> Seq<char> {
    match p {
        RulePort::Single(n) => dec(n as nat),
        RulePort::Range { start, end } => seq!['{'] + enc_str(k_start()) + seq![':'] + dec(
            start as nat,
        ) + seq![','] + enc_str(k_end()) + seq![':'] + dec(end as nat) + seq!['}'],
    }
}

pub open spec fn enc_node(n: NodeV) -> Seq<char> {
    enc_obj(
        seq![
            (k_hostname(), enc_str(n.hostname)),
            (k_ip(), enc_str(n.ip)),
        ],
    )
}

pub open spec fn enc_pool(p: PoolV) -> Seq<char> {
    enc_obj(
        seq![(k_nodes(), enc_obj(p.nodes.map_values(|e: (Seq<char>, NodeV)| (e.0, enc_node(e.1)))))],
    )
}

pub open spec fn enc_rule(r: RuleV) -> Seq<char> {
    enc_obj(
        seq![
            (k_protocol(), enc_protocol(r.protocol)),
            (k_ports(), enc_arr(r.ports.map_values(|p: RulePort| enc_port(p)))),
            (k_nodepools(), enc_arr(r.nodepools.map_values(|s: Seq<char>| enc_str(s)))),
        ],
    )
}

pub open spec fn enc_ruleset(rs: RuleSetV) -> Seq<char> {
    enc_obj(seq![(k_rules(), enc_arr(rs.rules.map_values(|r: RuleV| enc_rule(r))))])
}

/// The whole snapshot document for a configuration state.
pub open spec fn enc_config(c: ConfigState) -> Seq<char> {
    enc_obj(
        seq![
            (
                k_nodepools(),
                enc_obj(c.nodepools@.map_values(|e: (Seq<char>, PoolV)| (e.0, enc_pool(e.1)))),
            ),
            (
                k_rulesets(),
                enc_obj(
                    c.rulesets@.map_values(|e: (Seq<char>, RuleSetV)| (e.0, enc_ruleset(e.1))),
                ),
            ),
            (
                k_dependency_tree(),
                enc_obj(
                    c.dependency_tree@.map_values(
                        |e: (Seq<char>, Seq<Seq<char>>)| (
                            e.0,
                            enc_arr(e.1.map_values(|s: Seq<char>| enc_str(s))),
                        ),
                    ),
                ),
            ),
        ],
    )
}

pub proof fn lemma_esc_snoc(s: Seq<char>, i: int)
    requires
        0 <= i < s.len(),
    ensures
        esc(s.take(i + 1)) == esc(s.take(i)) + esc_char(s[i]),
    decreases i,
{
    let a = s.take(i + 1);
    let b = s.take(i);
    if i == 0 {
        assert(a =~= seq![s[0]]);
        assert(b =~= Seq::<char>::empty());
        assert(esc(a) == esc_char(s[0]) + esc(a.drop_first()));
        assert(a.drop_first() =~= Seq::<char>::empty());
        assert(esc(b) + esc_char(s[0]) =~= esc_char(s[0]));
    } else {
        lemma_esc_snoc(s.drop_first(), i - 1);
        assert(a.drop_first() =~= s.drop_first().take(i));
        assert(b.drop_first() =~= s.drop_first().take(i - 1));
        assert(s.drop_first()[i - 1] == s[i]);
        assert(esc(a) == esc_char(s[0]) + esc(a.drop_first()));
        assert(esc(b) == esc_char(s[0]) + esc(b.drop_first()));
        assert(esc(a) =~= esc(b) + esc_char(s[i]));
    }
}

/// Escaping is the identity on text without quotes or backslashes.
pub proof fn lemma_esc_clean(s: Seq<char>)
    requires
        forall|i: int| 0 <= i < s.len() ==> s[i] != '"' && s[i] != '\\',
    ensures
        esc(s) == s,
    decreases s.len(),
{
    if s.len() == 0 {
        assert(esc(s) =~= s);
    } else {
        lemma_esc_clean(s.drop_first());
        assert(esc(s) =~= s);
    }
}

/// Appends the escaped body of `s`.
fn push_escaped(out: &mut Vec<char>, s: &String)
    ensures
        final(out)@ == old(out)@ + esc(s@),
{
    let ss: &str = s.as_str();
    let n = ss.unicode_len();
    let mut i: usize = 0;
    while i < n
        invariant
            n == ss@.len(),
            ss@ == s@,
            i <= n,
            out@ == old(out)@ + esc(s@.take(i as int)),
        decreases n - i,
    {
        let c = ss.get_char(i);
        if c == '"' || c == '\\' {
            out.push('\\');
        }
        out.push(c);
        proof {
            lemma_esc_snoc(s@, i as int);
            assert(out@ =~= old(out)@ + esc(s@.take(i + 1)));
        }
        i = i + 1;
    }
    proof {
        assert(s@.take(n as int) =~= s@);
    }
}

/// Appends `s` as a quoted JSON string.
fn push_str_enc(out: &mut Vec<char>, s: &String)
    ensures
        final(out)@ == old(out)@ + enc_str(s@),
{
    out.push('"');
    push_escaped(out, s);
    out.push('"');
    proof {
        assert(out@ =~= old(out)@ + enc_str(s@));
    }
}

/// Appends the decimal digits of `n`.
fn push_u16(out: &mut Vec<char>, n: u16)
    ensures
        final(out)@ == old(out)@ + dec(n as nat),
    decreases n,
{
    if n < 10 {
        push_digit(out, n);
        proof {
            assert(out@ =~= old(out)@ + dec(n as nat));
        }
    } else {
        push_u16(out, n / 10);
        push_digit(out, n % 10);
        proof {
            assert(out@ =~= old(out)@ + dec(n as nat));
        }
    }
}

fn push_digit(out: &mut Vec<char>, d: u16)
    requires
        d < 10,
    ensures
        final(out)@ == old(out)@ + seq![digit_char(d as nat)],
{
    let c = if d == 0 {
        '0'
    } else if d == 1 {
        '1'
    } else if d == 2 {
        '2'
    } else if d == 3 {
        '3'
    } else if d == 4 {
        '4'
    } else if d == 5 {
        '5'
    } else if d == 6 {
        '6'
    } else if d == 7 {
        '7'
    } else if d == 8 {
        '8'
    } else {
        '9'
    };
    out.push(c);
    proof {
        assert(out@ =~= old(out)@ + seq![digit_char(d as nat)]);
    }
}

pub proof fn lemma_join_step(items: Seq<Seq<char>>, i: int)
    requires
        0 <= i < items.len(),
    ensures
        join(items.take(i + 1)) == join(items.take(i)) + (if i == 0 {
            Seq::<char>::empty()
        } else {
            seq![',']
        }) + items[i],
{
    let a = items.take(i + 1);
    let b = items.take(i);
    assert(a =~= b.push(items[i]));
    if i == 0 {
        assert(join(a) == items[i]);
        assert(join(b) + Seq::<char>::empty() + items[i] =~= items[i]);
    } else {
        assert(a.drop_last() =~= b);
        assert(a.last() == items[i]);
        assert(join(a) == join(b) + seq![','] + items[i]);
    }
}


pub proof fn lemma_join3(items: Seq<Seq<char>>)
    requires
        items.len() == 3,
    ensures
        join(items) == items[0] + seq![','] + items[1] + seq![','] + items[2],
{
    assert(items.drop_last() =~= seq![items[0], items[1]]);
    assert(seq![items[0], items[1]].drop_last() =~= seq![items[0]]);
    assert(join(seq![items[0]]) == items[0]);
    assert(join(seq![items[0], items[1]]) == items[0] + seq![','] + items[1]);
}

fn push_node(out: &mut Vec<char>, n: &Node)
    ensures
        final(out)@ == old(out)@ + enc_node(n@),
{
    out.push('{');
    out.push('"');
    out.push('h');
    out.push('o');
    out.push('s');
    out.push('t');
    out.push('n');
    out.push('a');
    out.push('m');
    out.push('e');
    out.push('"');
    out.push(':');
    push_str_enc(out, &n.hostname);
    out.push(',');
    out.push('"');
    out.push('i');
    out.push('p');
    out.push('"');
    out.push(':');
    push_str_enc(out, &n.ip);
    out.push('}');
    proof {
        let entries = seq![(k_hostname(), enc_str(n@.hostname)), (k_ip(), enc_str(n@.ip))];
        let items = entries.map_values(|e: (Seq<char>, Seq<char>)| enc_str(e.0) + seq![':']
            + e.1);
        lemma_esc_clean(k_hostname());
        lemma_esc_clean(k_ip());
        assert(items.drop_last() =~= seq![items[0]]);
        assert(join(items) == items[0] + seq![','] + items[1]) by {
            assert(join(items.drop_last()) == items[0]);
        }
        assert(out@ =~= old(out)@ + enc_node(n@));
    }
}

fn push_pool(out: &mut Vec<char>, p: &NodePool)
    ensures
        final(out)@ == old(out)@ + enc_pool(p@),
{
    out.push('{');
    out.push('"');
    out.push('n');
    out.push('o');
    out.push('d');
    out.push('e');
    out.push('s');
    out.push('"');
    out.push(':');
    out.push('{');
    let ghost entries = p@.nodes.map_values(|e: (Seq<char>, NodeV)| (e.0, enc_node(e.1)));
    let ghost items = entries.map_values(|e: (Seq<char>, Seq<char>)| enc_str(e.0) + seq![':']
        + e.1);
    let ghost mark = out@;
    let n = p.nodes.len();
    let mut i: usize = 0;
    while i < n
        invariant
            n == p@.nodes.len(),
            entries == p@.nodes.map_values(|e: (Seq<char>, NodeV)| (e.0, enc_node(e.1))),
            items == entries.map_values(
                |e: (Seq<char>, Seq<char>)| enc_str(e.0) + seq![':'] + e.1,
            ),
            i <= n,
            out@ == mark + join(items.take(i as int)),
        decreases n - i,
    {
        if i > 0 {
            out.push(',');
        }
        push_str_enc(out, p.nodes.key_at(i));
        out.push(':');
        push_node(out, p.nodes.val_at(i));
        proof {
            lemma_join_step(items, i as int);
            assert(items[i as int] == enc_str(p@.nodes[i as int].0) + seq![':'] + enc_node(
                p@.nodes[i as int].1,
            ));
            assert(out@ =~= mark + join(items.take(i + 1)));
        }
        i = i + 1;
    }
    out.push('}');
    out.push('}');
    proof {
        assert(items.take(n as int) =~= items);
        lemma_esc_clean(k_nodes());
        let outer = seq![(k_nodes(), enc_obj(entries))];
        let outer_items = outer.map_values(|e: (Seq<char>, Seq<char>)| enc_str(e.0) + seq![':']
            + e.1);
        assert(join(outer_items) == outer_items[0]);
        assert(out@ =~= old(out)@ + enc_pool(p@));
    }
}

fn push_port(out: &mut Vec<char>, p: RulePort)
    ensures
        final(out)@ == old(out)@ + enc_port(p),
{
    match p {
        RulePort::Single(n) => {
            push_u16(out, n);
        },
        RulePort::Range { start, end } => {
            out.push('{');
            out.push('"');
            out.push('s');
            out.push('t');
            out.push('a');
            out.push('r');
            out.push('t');
            out.push('"');
            out.push(':');
            push_u16(out, start);
            out.push(',');
            out.push('"');
            out.push('e');
            out.push('n');
            out.push('d');
            out.push('"');
            out.push(':');
            push_u16(out, end);
            out.push('}');
            proof {
                lemma_esc_clean(k_start());
                lemma_esc_clean(k_end());
                assert(out@ =~= old(out)@ + enc_port(p));
            }
        },
    }
}

/// Appends `"key":` for a key without quote or backslash characters.
fn push_key(out: &mut Vec<char>, s: &str)
    requires
        forall|i: int| 0 <= i < s@.len() ==> s@[i] != '"' && s@[i] != '\\',
    ensures
        final(out)@ == old(out)@ + enc_str(s@) + seq![':'],
{
    out.push('"');
    let n = s.unicode_len();
    let mut i: usize = 0;
    while i < n
        invariant
            n == s@.len(),
            i <= n,
            out@ == old(out)@ + seq!['"'] + s@.take(i as int),
        decreases n - i,
    {
        out.push(s.get_char(i));
        proof {
            assert(out@ =~= old(out)@ + seq!['"'] + s@.take(i + 1));
        }
        i = i + 1;
    }
    out.push('"');
    out.push(':');
    proof {
        lemma_esc_clean(s@);
        assert(s@.take(n as int) =~= s@);
        assert(out@ =~= old(out)@ + enc_str(s@) + seq![':']);
    }
}

fn push_ports_arr(out: &mut Vec<char>, v: &Vec<RulePort>)
    ensures
        final(out)@ == old(out)@ + enc_arr(v@.map_values(|p: RulePort| enc_port(p))),
{
    out.push('[');
    let ghost items = v@.map_values(|p: RulePort| enc_port(p));
    let ghost mark = out@;
    let n = v.len();
    let mut i: usize = 0;
    while i < n
        invariant
            n == v@.len(),
            items == v@.map_values(|p: RulePort| enc_port(p)),
            i <= n,
            out@ == mark + join(items.take(i as int)),
        decreases n - i,
    {
        if i > 0 {
            out.push(',');
        }
        push_port(out, v[i]);
        proof {
            lemma_join_step(items, i as int);
            assert(out@ =~= mark + join(items.take(i + 1)));
        }
        i = i + 1;
    }
    out.push(']');
    proof {
        assert(items.take(n as int) =~= items);
        assert(out@ =~= old(out)@ + enc_arr(items));
    }
}

fn push_strings_arr(out: &mut Vec<char>, v: &Vec<String>)
    ensures
        final(out)@ == old(out)@ + enc_arr(v@.map_values(|s: String| enc_str(s@))),
{
    out.push('[');
    let ghost items = v@.map_values(|s: String| enc_str(s@));
    let ghost mark = out@;
    let n = v.len();
    let mut i: usize = 0;
    while i < n
        invariant
            n == v@.len(),
            items == v@.map_values(|s: String| enc_str(s@)),
            i <= n,
            out@ == mark + join(items.take(i as int)),
        decreases n - i,
    {
        if i > 0 {
            out.push(',');
        }
        push_str_enc(out, &v[i]);
        proof {
            lemma_join_step(items, i as int);
            assert(out@ =~= mark + join(items.take(i + 1)));
        }
        i = i + 1;
    }
    out.push(']');
    proof {
        assert(items.take(n as int) =~= items);
        assert(out@ =~= old(out)@ + enc_arr(items));
    }
}

fn push_protocol(out: &mut Vec<char>, p: &RuleProtocol)
    ensures
        final(out)@ == old(out)@ + enc_protocol(*p),
{
    out.push('"');
    match p {
        RuleProtocol::TCP => {
            out.push('t');
            out.push('c');
            out.push('p');
        },
        RuleProtocol::UDP => {
            out.push('u');
            out.push('d');
            out.push('p');
        },
    }
    out.push('"');
    proof {
        lemma_esc_clean(seq!['t', 'c', 'p']);
        lemma_esc_clean(seq!['u', 'd', 'p']);
        assert(out@ =~= old(out)@ + enc_protocol(*p));
    }
}

#[verifier::rlimit(100)]
fn push_rule(out: &mut Vec<char>, r: &Rule)
    ensures
        final(out)@ == old(out)@ + enc_rule(r@),
{
    proof {
        reveal_strlit("protocol");
        reveal_strlit("ports");
        reveal_strlit("nodepools");
        assert("protocol"@ =~= k_protocol());
        assert("ports"@ =~= k_ports());
        assert("nodepools"@ =~= k_nodepools());
    }
    out.push('{');
    push_key(out, "protocol");
    push_protocol(out, &r.protocol);
    out.push(',');
    push_key(out, "ports");
    push_ports_arr(out, &r.ports);
    out.push(',');
    push_key(out, "nodepools");
    push_strings_arr(out, &r.nodepools);
    out.push('}');
    proof {
        assert(r@.nodepools.map_values(|s: Seq<char>| enc_str(s)) =~= r.nodepools@.map_values(
            |s: String| enc_str(s@),
        ));
        let entries = seq![
            (k_protocol(), enc_protocol(r@.protocol)),
            (k_ports(), enc_arr(r@.ports.map_values(|p: RulePort| enc_port(p)))),
            (k_nodepools(), enc_arr(r@.nodepools.map_values(|s: Seq<char>| enc_str(s)))),
        ];
        let items = entries.map_values(|e: (Seq<char>, Seq<char>)| enc_str(e.0) + seq![':']
            + e.1);
        lemma_join3(items);
        assert(out@ =~= old(out)@ + enc_rule(r@));
    }
}

fn push_ruleset(out: &mut Vec<char>, rs: &RuleSet)
    ensures
        final(out)@ == old(out)@ + enc_ruleset(rs@),
{
    out.push('{');
    out.push('"');
    out.push('r');
    out.push('u');
    out.push('l');
    out.push('e');
    out.push('s');
    out.push('"');
    out.push(':');
    out.push('[');
    let ghost rule_items = rs@.rules.map_values(|r: RuleV| enc_rule(r));
    let ghost mark = out@;
    let n = rs.rules.len();
    let mut i: usize = 0;
    while i < n
        invariant
            n == rs@.rules.len(),
            rule_items == rs@.rules.map_values(|r: RuleV| enc_rule(r)),
            rs@.rules == rs.rules@.map_values(|r: Rule| r@),
            i <= n,
            out@ == mark + join(rule_items.take(i as int)),
        decreases n - i,
    {
        if i > 0 {
            out.push(',');
        }
        push_rule(out, &rs.rules[i]);
        proof {
            lemma_join_step(rule_items, i as int);
            assert(rs@.rules[i as int] == rs.rules@[i as int]@);
            assert(out@ =~= mark + join(rule_items.take(i + 1)));
        }
        i = i + 1;
    }
    out.push(']');
    out.push('}');
    proof {
        assert(rule_items.take(n as int) =~= rule_items);
        lemma_esc_clean(k_rules());
        let outer = seq![(k_rules(), enc_arr(rule_items))];
        let outer_items = outer.map_values(|e: (Seq<char>, Seq<char>)| enc_str(e.0) + seq![':']
            + e.1);
        assert(join(outer_items) == outer_items[0]);
        assert(out@ =~= old(out)@ + enc_ruleset(rs@));
    }
}

fn push_pools_obj(out: &mut Vec<char>, c: &ConfigState)
    ensures
        final(out)@ == old(out)@ + enc_obj(
            c.nodepools@.map_values(|e: (Seq<char>, PoolV)| (e.0, enc_pool(e.1))),
        ),
{
    out.push('{');
    let ghost entries = c.nodepools@.map_values(|e: (Seq<char>, PoolV)| (e.0, enc_pool(e.1)));
    let ghost items = entries.map_values(|e: (Seq<char>, Seq<char>)| enc_str(e.0) + seq![':']
        + e.1);
    let ghost mark = out@;
    let n = c.nodepools.len();
    let mut i: usize = 0;
    while i < n
        invariant
            n == c.nodepools@.len(),
            entries == c.nodepools@.map_values(
                |e: (Seq<char>, PoolV)| (e.0, enc_pool(e.1)),
            ),
            items == entries.map_values(
                |e: (Seq<char>, Seq<char>)| enc_str(e.0) + seq![':'] + e.1,
            ),
            i <= n,
            out@ == mark + join(items.take(i as int)),
        decreases n - i,
    {
        if i > 0 {
            out.push(',');
        }
        push_str_enc(out, c.nodepools.key_at(i));
        out.push(':');
        push_pool(out, c.nodepools.val_at(i));
        proof {
            lemma_join_step(items, i as int);
            assert(out@ =~= mark + join(items.take(i + 1)));
        }
        i = i + 1;
    }
    out.push('}');
    proof {
        assert(items.take(n as int) =~= items);
        assert(out@ =~= old(out)@ + enc_obj(entries));
    }
}

fn push_rulesets_obj(out: &mut Vec<char>, c: &ConfigState)
    ensures
        final(out)@ == old(out)@ + enc_obj(
            c.rulesets@.map_values(|e: (Seq<char>, RuleSetV)| (e.0, enc_ruleset(e.1))),
        ),
{
    out.push('{');
    let ghost entries = c.rulesets@.map_values(
        |e: (Seq<char>, RuleSetV)| (e.0, enc_ruleset(e.1)),
    );
    let ghost items = entries.map_values(|e: (Seq<char>, Seq<char>)| enc_str(e.0) + seq![':']
        + e.1);
    let ghost mark = out@;
    let n = c.rulesets.len();
    let mut i: usize = 0;
    while i < n
        invariant
            n == c.rulesets@.len(),
            entries == c.rulesets@.map_values(
                |e: (Seq<char>, RuleSetV)| (e.0, enc_ruleset(e.1)),
            ),
            items == entries.map_values(
                |e: (Seq<char>, Seq<char>)| enc_str(e.0) + seq![':'] + e.1,
            ),
            i <= n,
            out@ == mark + join(items.take(i as int)),
        decreases n - i,
    {
        if i > 0 {
            out.push(',');
        }
        push_str_enc(out, c.rulesets.key_at(i));
        out.push(':');
        push_ruleset(out, c.rulesets.val_at(i));
        proof {
            lemma_join_step(items, i as int);
            assert(out@ =~= mark + join(items.take(i + 1)));
        }
        i = i + 1;
    }
    out.push('}');
    proof {
        assert(items.take(n as int) =~= items);
        assert(out@ =~= old(out)@ + enc_obj(entries));
    }
}

fn push_tree_obj(out: &mut Vec<char>, c: &ConfigState)
    ensures
        final(out)@ == old(out)@ + enc_obj(
            c.dependency_tree@.map_values(
                |e: (Seq<char>, Seq<Seq<char>>)| (
                    e.0,
                    enc_arr(e.1.map_values(|s: Seq<char>| enc_str(s))),
                ),
            ),
        ),
{
    out.push('{');
    let ghost entries = c.dependency_tree@.map_values(
        |e: (Seq<char>, Seq<Seq<char>>)| (
            e.0,
            enc_arr(e.1.map_values(|s: Seq<char>| enc_str(s))),
        ),
    );
    let ghost items = entries.map_values(|e: (Seq<char>, Seq<char>)| enc_str(e.0) + seq![':']
        + e.1);
    let ghost mark = out@;
    let n = c.dependency_tree.len();
    let mut k: usize = 0;
    while k < n
        invariant
            n == c.dependency_tree@.len(),
            entries == c.dependency_tree@.map_values(
                |e: (Seq<char>, Seq<Seq<char>>)| (
                    e.0,
                    enc_arr(e.1.map_values(|s: Seq<char>| enc_str(s))),
                ),
            ),
            items == entries.map_values(
                |e: (Seq<char>, Seq<char>)| enc_str(e.0) + seq![':'] + e.1,
            ),
            k <= n,
            out@ == mark + join(items.take(k as int)),
        decreases n - k,
    {
        if k > 0 {
            out.push(',');
        }
        push_str_enc(out, c.dependency_tree.key_at(k));
        out.push(':');
        out.push('[');
        let ids = c.dependency_tree.val_at(k);
        let ghost id_items = c.dependency_tree@[k as int].1.map_values(
            |s: Seq<char>| enc_str(s),
        );
        let ghost mark2 = out@;
        let nid = ids.len();
        let mut w: usize = 0;
        while w < nid
            invariant
                nid == ids@.len(),
                ids@ == c.dependency_tree@[k as int].1,
                k < c.dependency_tree@.len(),
                id_items == c.dependency_tree@[k as int].1.map_values(
                    |s: Seq<char>| enc_str(s),
                ),
                w <= nid,
                out@ == mark2 + join(id_items.take(w as int)),
            decreases nid - w,
        {
            if w > 0 {
                out.push(',');
            }
            push_str_enc(out, ids.at(w));
            proof {
                lemma_join_step(id_items, w as int);
                assert(out@ =~= mark2 + join(id_items.take(w + 1)));
            }
            w = w + 1;
        }
        out.push(']');
        proof {
            lemma_join_step(items, k as int);
            assert(id_items.take(nid as int) =~= id_items);
            assert(out@ =~= mark + join(items.take(k + 1)));
        }
        k = k + 1;
    }
    out.push('}');
    proof {
        assert(items.take(n as int) =~= items);
        assert(out@ =~= old(out)@ + enc_obj(entries));
    }
}

/// Serializes the whole configuration state into its snapshot document.
#[verifier::rlimit(100)]
pub fn encode_config(c: &ConfigState) -> (r: Vec<char>)
    ensures
        r@ == enc_config(*c),
{
    let mut out: Vec<char> = Vec::new();
    out.push('{');
    out.push('"');
    out.push('n');
    out.push('o');
    out.push('d');
    out.push('e');
    out.push('p');
    out.push('o');
    out.push('o');
    out.push('l');
    out.push('s');
    out.push('"');
    out.push(':');
    push_pools_obj(&mut out, c);
    out.push(',');
    out.push('"');
    out.push('r');
    out.push('u');
    out.push('l');
    out.push('e');
    out.push('s');
    out.push('e');
    out.push('t');
    out.push('s');
    out.push('"');
    out.push(':');
    push_rulesets_obj(&mut out, c);
    out.push(',');
    out.push('"');
    out.push('d');
    out.push('e');
    out.push('p');
    out.push('e');
    out.push('n');
    out.push('d');
    out.push('e');
    out.push('n');
    out.push('c');
    out.push('y');
    out.push('_');
    out.push('t');
    out.push('r');
    out.push('e');
    out.push('e');
    out.push('"');
    out.push(':');
    push_tree_obj(&mut out, c);
    out.push('}');
    proof {
        lemma_esc_clean(k_nodepools());
        lemma_esc_clean(k_rulesets());
        lemma_esc_clean(k_dependency_tree());
        let entries = seq![
            (
                k_nodepools(),
                enc_obj(c.nodepools@.map_values(|e: (Seq<char>, PoolV)| (e.0, enc_pool(e.1)))),
            ),
            (
                k_rulesets(),
                enc_obj(
                    c.rulesets@.map_values(|e: (Seq<char>, RuleSetV)| (e.0, enc_ruleset(e.1))),
                ),
            ),
            (
                k_dependency_tree(),
                enc_obj(
                    c.dependency_tree@.map_values(
                        |e: (Seq<char>, Seq<Seq<char>>)| (
                            e.0,
                            enc_arr(e.1.map_values(|s: Seq<char>| enc_str(s))),
                        ),
                    ),
                ),
            ),
        ];
        let items = entries.map_values(|e: (Seq<char>, Seq<char>)| enc_str(e.0) + seq![':']
            + e.1);
        lemma_join3(items);
        assert(out@ =~= enc_config(*c));
    }
    out
}

/// Relies on String::push: appends the given character to the string.
#[verifier::external_body]
fn push_char(s: &mut String, c: char)
    ensures
        final(s)@ == old(s)@.push(c),
{
    s.push(c);
}

/// Consumes one expected character.
fn p_char(s: &Vec<char>, pos: usize, c: char) -> (r: Option<usize>)
    ensures
        match r {
            Some(q) => pos < q <= s@.len(),
            None => true,
        },
{
    if pos < s.len() && s[pos] == c {
        Some(pos + 1)
    } else {
        None
    }
}

/// Consumes `"name":` for a fixed member name.
fn p_key(s: &Vec<char>, pos: usize, name: &str) -> (r: Option<usize>)
    ensures
        match r {
            Some(q) => pos < q <= s@.len(),
            None => true,
        },
{
    let mut at = match p_char(s, pos, '"') {
        Some(q) => q,
        None => {
            return None;
        },
    };
    let n = name.unicode_len();
    let mut i: usize = 0;
    while i < n
        invariant
            n == name@.len(),
            i <= n,
            pos < at <= s@.len(),
        decreases n - i,
    {
        let c = name.get_char(i);
        at = match p_char(s, at, c) {
            Some(q) => q,
            None => {
                return None;
            },
        };
        i = i + 1;
    }
    let at = match p_char(s, at, '"') {
        Some(q) => q,
        None => {
            return None;
        },
    };
    p_char(s, at, ':')
}

/// Consumes a quoted string, undoing the escaping.
fn p_string(s: &Vec<char>, pos: usize) -> (r: Option<(String, usize)>)
    ensures
        match r {
            Some(q) => pos < q.1 <= s@.len(),
            None => true,
        },
{
    let mut at = match p_char(s, pos, '"') {
        Some(q) => q,
        None => {
            return None;
        },
    };
    let mut out = String::new();
    let n = s.len();
    loop
        invariant
            n == s@.len(),
            pos < at <= n,
        decreases n - at,
    {
        if at >= n {
            return None;
        }
        let c = s[at];
        if c == '"' {
            return Some((out, at + 1));
        }
        if c == '\\' {
            if at + 1 >= n {
                return None;
            }
            let e = s[at + 1];
            if e != '"' && e != '\\' {
                return None;
            }
            push_char(&mut out, e);
            at = at + 2;
        } else {
            push_char(&mut out, c);
            at = at + 1;
        }
    }
}

/// Consumes an unsigned decimal number that fits a port.
fn p_u16(s: &Vec<char>, pos: usize) -> (r: Option<(u16, usize)>)
    ensures
        match r {
            Some(q) => pos < q.1 <= s@.len(),
            None => true,
        },
{
    let n = s.len();
    if pos >= n {
        return None;
    }
    let mut at = pos;
    let mut value: u16 = 0;
    let mut seen = false;
    while at < n
        invariant
            n == s@.len(),
            pos <= at <= n,
            seen ==> pos < at,
        decreases n - at,
    {
        let c = s[at];
        let d: u16 = if c == '0' {
            0
        } else if c == '1' {
            1
        } else if c == '2' {
            2
        } else if c == '3' {
            3
        } else if c == '4' {
            4
        } else if c == '5' {
            5
        } else if c == '6' {
            6
        } else if c == '7' {
            7
        } else if c == '8' {
            8
        } else if c == '9' {
            9
        } else {
            10
        };
        if d == 10 {
            break ;
        }
        if value > 6553 || (value == 6553 && d > 5) {
            return None;
        }
        value = value * 10 + d;
        seen = true;
        at = at + 1;
    }
    if seen {
        Some((value, at))
    } else {
        None
    }
}

/// Consumes a port selector: a bare number or a start/end object.
fn p_port(s: &Vec<char>, pos: usize) -> (r: Option<(RulePort, usize)>)
    ensures
        match r {
            Some(q) => pos < q.1 <= s@.len(),
            None => true,
        },
{
    if pos < s.len() && s[pos] == '{' {
        let at = pos + 1;
        let at = match p_key(s, at, "start") {
            Some(q) => q,
            None => {
                return None;
            },
        };
        let (start, at) = match p_u16(s, at) {
            Some(q) => q,
            None => {
                return None;
            },
        };
        let at = match p_char(s, at, ',') {
            Some(q) => q,
            None => {
                return None;
            },
        };
        let at = match p_key(s, at, "end") {
            Some(q) => q,
            None => {
                return None;
            },
        };
        let (end, at) = match p_u16(s, at) {
            Some(q) => q,
            None => {
                return None;
            },
        };
        let at = match p_char(s, at, '}') {
            Some(q) => q,
            None => {
                return None;
            },
        };
        Some((RulePort::Range { start, end }, at))
    } else {
        match p_u16(s, pos) {
            Some((v, at)) => Some((RulePort::Single(v), at)),
            None => None,
        }
    }
}

/// Consumes one rule object.
fn p_rule(s: &Vec<char>, pos: usize) -> (r: Option<(Rule, usize)>)
    ensures
        match r {
            Some(q) => pos < q.1 <= s@.len() && q.0.wf(),
            None => true,
        },
{
    let at = match p_char(s, pos, '{') {
        Some(q) => q,
        None => {
            return None;
        },
    };
    let at = match p_key(s, at, "protocol") {
        Some(q) => q,
        None => {
            return None;
        },
    };
    let (protocol, at) = match p_string(s, at) {
        Some((word, q)) => {
            let tcp = {
                let mut t = String::new();
                push_char(&mut t, 't');
                push_char(&mut t, 'c');
                push_char(&mut t, 'p');
                t
            };
            let udp = {
                let mut t = String::new();
                push_char(&mut t, 'u');
                push_char(&mut t, 'd');
                push_char(&mut t, 'p');
                t
            };
            if word == tcp {
                (RuleProtocol::TCP, q)
            } else if word == udp {
                (RuleProtocol::UDP, q)
            } else {
                return None;
            }
        },
        None => {
            return None;
        },
    };
    let at = match p_char(s, at, ',') {
        Some(q) => q,
        None => {
            return None;
        },
    };
    let at = match p_key(s, at, "ports") {
        Some(q) => q,
        None => {
            return None;
        },
    };
    let mut at = match p_char(s, at, '[') {
        Some(q) => q,
        None => {
            return None;
        },
    };
    let mut ports: Vec<RulePort> = Vec::new();
    if at < s.len() && s[at] == ']' {
        at = at + 1;
    } else {
        loop
            invariant
                pos < at <= s@.len(),
            decreases s@.len() - at,
        {
            let (p, q) = match p_port(s, at) {
                Some(q) => q,
                None => {
                    return None;
                },
            };
            ports.push(p);
            at = q;
            if at < s.len() && s[at] == ',' {
                at = at + 1;
                if at >= s.len() {
                    return None;
                }
            } else {
                match p_char(s, at, ']') {
                    Some(q) => {
                        at = q;
                        break ;
                    },
                    None => {
                        return None;
                    },
                }
            }
        }
    }
    let at = match p_char(s, at, ',') {
        Some(q) => q,
        None => {
            return None;
        },
    };
    let at = match p_key(s, at, "nodepools") {
        Some(q) => q,
        None => {
            return None;
        },
    };
    let mut at = match p_char(s, at, '[') {
        Some(q) => q,
        None => {
            return None;
        },
    };
    let mut pools: Vec<String> = Vec::new();
    if at < s.len() && s[at] == ']' {
        at = at + 1;
    } else {
        loop
            invariant
                pos < at <= s@.len(),
            decreases s@.len() - at,
        {
            let (p, q) = match p_string(s, at) {
                Some(q) => q,
                None => {
                    return None;
                },
            };
            pools.push(p);
            at = q;
            if at < s.len() && s[at] == ',' {
                at = at + 1;
                if at >= s.len() {
                    return None;
                }
            } else {
                match p_char(s, at, ']') {
                    Some(q) => {
                        at = q;
                        break ;
                    },
                    None => {
                        return None;
                    },
                }
            }
        }
    }
    let at = match p_char(s, at, '}') {
        Some(q) => q,
        None => {
            return None;
        },
    };
    match Rule::new(protocol, ports, pools) {
        Some(rule) => Some((rule, at)),
        None => None,
    }
}

/// Consumes one host object.
fn p_node(s: &Vec<char>, pos: usize) -> (r: Option<(Node, usize)>)
    ensures
        match r {
            Some(q) => pos < q.1 <= s@.len(),
            None => true,
        },
{
    let at = match p_char(s, pos, '{') {
        Some(q) => q,
        None => {
            return None;
        },
    };
    let at = match p_key(s, at, "hostname") {
        Some(q) => q,
        None => {
            return None;
        },
    };
    let (hostname, at) = match p_string(s, at) {
        Some(q) => q,
        None => {
            return None;
        },
    };
    let at = match p_char(s, at, ',') {
        Some(q) => q,
        None => {
            return None;
        },
    };
    let at = match p_key(s, at, "ip") {
        Some(q) => q,
        None => {
            return None;
        },
    };
    let (ip, at) = match p_string(s, at) {
        Some(q) => q,
        None => {
            return None;
        },
    };
    let at = match p_char(s, at, '}') {
        Some(q) => q,
        None => {
            return None;
        },
    };
    Some((Node::new(hostname, ip), at))
}

/// Consumes one pool object.
fn p_pool(s: &Vec<char>, pos: usize) -> (r: Option<(NodePool, usize)>)
    ensures
        match r {
            Some(q) => pos < q.1 <= s@.len() && q.0.wf(),
            None => true,
        },
{
    let at = match p_char(s, pos, '{') {
        Some(q) => q,
        None => {
            return None;
        },
    };
    let at = match p_key(s, at, "nodes") {
        Some(q) => q,
        None => {
            return None;
        },
    };
    let mut at = match p_char(s, at, '{') {
        Some(q) => q,
        None => {
            return None;
        },
    };
    let mut pool = NodePool::new();
    if at < s.len() && s[at] == '}' {
        at = at + 1;
    } else {
        loop
            invariant
                pos < at <= s@.len(),
                pool.wf(),
            decreases s@.len() - at,
        {
            let (key, q) = match p_string(s, at) {
                Some(q) => q,
                None => {
                    return None;
                },
            };
            let q = match p_char(s, q, ':') {
                Some(q2) => q2,
                None => {
                    return None;
                },
            };
            let (node, q) = match p_node(s, q) {
                Some(q2) => q2,
                None => {
                    return None;
                },
            };
            pool.add_node(key, node);
            at = q;
            if at < s.len() && s[at] == ',' {
                at = at + 1;
                if at >= s.len() {
                    return None;
                }
            } else {
                match p_char(s, at, '}') {
                    Some(q2) => {
                        at = q2;
                        break ;
                    },
                    None => {
                        return None;
                    },
                }
            }
        }
    }
    let at = match p_char(s, at, '}') {
        Some(q) => q,
        None => {
            return None;
        },
    };
    Some((pool, at))
}

/// Consumes one rule-set object.
fn p_ruleset(s: &Vec<char>, pos: usize) -> (r: Option<(RuleSet, usize)>)
    ensures
        match r {
            Some(q) => pos < q.1 <= s@.len() && q.0.wf(),
            None => true,
        },
{
    let at = match p_char(s, pos, '{') {
        Some(q) => q,
        None => {
            return None;
        },
    };
    let at = match p_key(s, at, "rules") {
        Some(q) => q,
        None => {
            return None;
        },
    };
    let mut at = match p_char(s, at, '[') {
        Some(q) => q,
        None => {
            return None;
        },
    };
    let mut rules: Vec<Rule> = Vec::new();
    if at < s.len() && s[at] == ']' {
        at = at + 1;
    } else {
        loop
            invariant
                pos < at <= s@.len(),
                forall|i: int| 0 <= i < rules@.len() ==> (#[trigger] rules@[i]).wf(),
            decreases s@.len() - at,
        {
            let (rule, q) = match p_rule(s, at) {
                Some(q) => q,
                None => {
                    return None;
                },
            };
            rules.push(rule);
            at = q;
            if at < s.len() && s[at] == ',' {
                at = at + 1;
                if at >= s.len() {
                    return None;
                }
            } else {
                match p_char(s, at, ']') {
                    Some(q2) => {
                        at = q2;
                        break ;
                    },
                    None => {
                        return None;
                    },
                }
            }
        }
    }
    let at = match p_char(s, at, '}') {
        Some(q) => q,
        None => {
            return None;
        },
    };
    let rs = RuleSet::new(rules);
    Some((rs, at))
}

/// Consumes a string array and discards it.
fn p_skip_string_arr(s: &Vec<char>, pos: usize) -> (r: Option<usize>)
    ensures
        match r {
            Some(q) => pos < q <= s@.len(),
            None => true,
        },
{
    let mut at = match p_char(s, pos, '[') {
        Some(q) => q,
        None => {
            return None;
        },
    };
    if at < s.len() && s[at] == ']' {
        return Some(at + 1);
    }
    loop
        invariant
            pos < at <= s@.len(),
        decreases s@.len() - at,
    {
        let (_id, q) = match p_string(s, at) {
            Some(q) => q,
            None => {
                return None;
            },
        };
        at = q;
        if at < s.len() && s[at] == ',' {
            at = at + 1;
            if at >= s.len() {
                return None;
            }
        } else {
            return p_char(s, at, ']');
        }
    }
}

/// Parses the whole snapshot document into a configuration state; the
/// stored dependency-index section is only checked for shape here, the
/// index itself is rebuilt by the mutation operations.
fn parse_config(s: &Vec<char>) -> (r: Option<ConfigState>)
    ensures
        match r {
            Some(c) => c.wf(),
            None => true,
        },
{
    let at = match p_char(s, 0, '{') {
        Some(q) => q,
        None => {
            return None;
        },
    };
    let at = match p_key(s, at, "nodepools") {
        Some(q) => q,
        None => {
            return None;
        },
    };
    let mut at = match p_char(s, at, '{') {
        Some(q) => q,
        None => {
            return None;
        },
    };
    let mut state = ConfigState::new();
    if at < s.len() && s[at] == '}' {
        at = at + 1;
    } else {
        loop
            invariant
                at <= s@.len(),
                state.wf(),
            decreases s@.len() - at,
        {
            let (key, q) = match p_string(s, at) {
                Some(q) => q,
                None => {
                    return None;
                },
            };
            let q = match p_char(s, q, ':') {
                Some(q2) => q2,
                None => {
                    return None;
                },
            };
            let (pool, q) = match p_pool(s, q) {
                Some(q2) => q2,
                None => {
                    return None;
                },
            };
            state.add_nodepool(key, pool);
            at = q;
            if at < s.len() && s[at] == ',' {
                at = at + 1;
                if at >= s.len() {
                    return None;
                }
            } else {
                match p_char(s, at, '}') {
                    Some(q2) => {
                        at = q2;
                        break ;
                    },
                    None => {
                        return None;
                    },
                }
            }
        }
    }
    let at = match p_char(s, at, ',') {
        Some(q) => q,
        None => {
            return None;
        },
    };
    let at = match p_key(s, at, "rulesets") {
        Some(q) => q,
        None => {
            return None;
        },
    };
    let mut at = match p_char(s, at, '{') {
        Some(q) => q,
        None => {
            return None;
        },
    };
    if at < s.len() && s[at] == '}' {
        at = at + 1;
    } else {
        loop
            invariant
                at <= s@.len(),
                state.wf(),
            decreases s@.len() - at,
        {
            let (key, q) = match p_string(s, at) {
                Some(q) => q,
                None => {
                    return None;
                },
            };
            let q = match p_char(s, q, ':') {
                Some(q2) => q2,
                None => {
                    return None;
                },
            };
            let (rs, q) = match p_ruleset(s, q) {
                Some(q2) => q2,
                None => {
                    return None;
                },
            };
            state.add_ruleset(key, rs);
            at = q;
            if at < s.len() && s[at] == ',' {
                at = at + 1;
                if at >= s.len() {
                    return None;
                }
            } else {
                match p_char(s, at, '}') {
                    Some(q2) => {
                        at = q2;
                        break ;
                    },
                    None => {
                        return None;
                    },
                }
            }
        }
    }
    let at = match p_char(s, at, ',') {
        Some(q) => q,
        None => {
            return None;
        },
    };
    let at = match p_key(s, at, "dependency_tree") {
        Some(q) => q,
        None => {
            return None;
        },
    };
    let mut at = match p_char(s, at, '{') {
        Some(q) => q,
        None => {
            return None;
        },
    };
    if at < s.len() && s[at] == '}' {
        at = at + 1;
    } else {
        loop
            invariant
                at <= s@.len(),
            decreases s@.len() - at,
        {
            let (_key, q) = match p_string(s, at) {
                Some(q) => q,
                None => {
                    return None;
                },
            };
            let q = match p_char(s, q, ':') {
                Some(q2) => q2,
                None => {
                    return None;
                },
            };
            let q = match p_skip_string_arr(s, q) {
                Some(q2) => q2,
                None => {
                    return None;
                },
            };
            at = q;
            if at < s.len() && s[at] == ',' {
                at = at + 1;
                if at >= s.len() {
                    return None;
                }
            } else {
                match p_char(s, at, '}') {
                    Some(q2) => {
                        at = q2;
                        break ;
                    },
                    None => {
                        return None;
                    },
                }
            }
        }
    }
    let at = match p_char(s, at, '}') {
        Some(q) => q,
        None => {
            return None;
        },
    };
    if at == s.len() {
        Some(state)
    } else {
        None
    }
}

/// Loads a configuration state from its snapshot document. A document is
/// accepted only if it is exactly the canonical serialization of the state
/// it describes, dependency index included; anything else is corrupt.
pub fn decode_config(text: &Vec<char>) -> (r: Option<ConfigState>)
    ensures
        match r {
            Some(c) => c.wf() && enc_config(c) == text@,
            None => true,
        },
{
    let state = match parse_config(text) {
        Some(c) => c,
        None => {
            return None;
        },
    };
    let back = encode_config(&state);
    if back.len() != text.len() {
        return None;
    }
    let n = back.len();
    let mut i: usize = 0;
    while i < n
        invariant
            n == back@.len() == text@.len(),
            i <= n,
            forall|j: int| 0 <= j < i ==> back@[j] == text@[j],
        decreases n - i,
    {
        if back[i] != text[i] {
            return None;
        }
        i = i + 1;
    }
    proof {
        assert(back@ =~= text@);
    }
    Some(state)
}

pub const FNV_OFFSET: u64 = 0xcbf29ce484222325;

pub const FNV_PRIME: u64 = 0x100000001b3;

/// FNV-1a over a character sequence, one character per round.
pub open spec fn fnv(s: Seq<char>, h: u64) -> u64
    decreases s.len(),
{
    if s.len() == 0 {
        h
    } else {
        fnv(s.drop_first(), (h ^ (s[0] as u64)).wrapping_mul(FNV_PRIME))
    }
}

/// The deterministic content fingerprint the persistence layer compares.
pub open spec fn spec_fingerprint(c: ConfigState) -> u64 {
    fnv(enc_config(c), FNV_OFFSET)
}

/// Content fingerprint: FNV-1a over the snapshot document.
pub fn hash(c: &ConfigState) -> (r: u64)
    ensures
        r == spec_fingerprint(*c),
{
    let text = encode_config(c);
    let n = text.len();
    let mut h: u64 = FNV_OFFSET;
    let mut i: usize = 0;
    proof {
        assert(text@.skip(0) =~= text@);
    }
    while i < n
        invariant
            n == text@.len(),
            text@ == enc_config(*c),
            i <= n,
            fnv(text@.skip(i as int), h) == spec_fingerprint(*c),
        decreases n - i,
    {
        proof {
            assert(text@.skip(i as int).drop_first() =~= text@.skip(i + 1));
            assert(text@.skip(i as int)[0] == text@[i as int]);
        }
        h = (h ^ (text[i] as u64)).wrapping_mul(FNV_PRIME);
        i = i + 1;
    }
    proof {
        assert(text@.skip(n as int) =~= Seq::<char>::empty());
    }
    h
}

} // verus!
