//! Serialization of the ownership graph.
//!
//! The persisted form is a length-prefixed text: every number is written in
//! decimal followed by `:`, every name as its character count, `:`, and the
//! characters themselves.  A graph becomes its node count and node names,
//! then its edge count and, per edge, the owned collection, the owner
//! collection, the owner's key field and the owned foreign-key field.  The
//! format round-trips: decoding an encoded graph yields the graph itself,
//! node set, edge set and labels included.

use vstd::prelude::*;
use crate::graph::{
    EdgeModel, GraphEdge, GraphModel, OwnEdge, OwnershipGraph, append_if_missing, contains_name,
    graph_acyclic, graph_wf, spec_add_edge,
};

verus! {

/// The decimal digit character for `d` (meaningful for `d < 10`).
pub open spec fn spec_digit(d: nat) -> char {
    if d == 0 {
        '0'
    } else if d == 1 {
        '1'
    } else if d == 2 {
        '2'
    } else if d == 3 {
        '3'
    } else if d == 4 {
        '4'
    } else if d == 5 {
        '5'
    } else if d == 6 {
        '6'
    } else if d == 7 {
        '7'
    } else if d == 8 {
        '8'
    } else {
        '9'
    }
}

/// The value of a decimal digit character, or nothing.
pub open spec fn spec_digit_value(c: char) -> Option<nat> {
    if c == '0' {
        Some(0nat)
    } else if c == '1' {
        Some(1nat)
    } else if c == '2' {
        Some(2nat)
    } else if c == '3' {
        Some(3nat)
    } else if c == '4' {
        Some(4nat)
    } else if c == '5' {
        Some(5nat)
    } else if c == '6' {
        Some(6nat)
    } else if c == '7' {
        Some(7nat)
    } else if c == '8' {
        Some(8nat)
    } else if c == '9' {
        Some(9nat)
    } else {
        None
    }
}

/// `n` in decimal, most significant digit first.
pub open spec fn spec_num(n: nat) -> Seq<char>
    decreases n,
{
    if n < 10 {
        seq![spec_digit(n)]
    } else {
        spec_num(n / 10).push(spec_digit(n % 10))
    }
}

/// A number followed by its `:` terminator.
pub open spec fn spec_tag(n: nat) -> Seq<char> {
    spec_num(n) + seq![':']
}

/// A name: its length tag, then its characters verbatim.
pub open spec fn spec_field(x: Seq<char>) -> Seq<char> {
    spec_tag(x.len()) + x
}

/// The node names in order.
pub open spec fn spec_encode_names(names: Seq<Seq<char>>) -> Seq<char>
    decreases names.len(),
{
    if names.len() == 0 {
        Seq::empty()
    } else {
        spec_field(names.first()) + spec_encode_names(names.drop_first())
    }
}

/// One edge: its four names in order.
pub open spec fn spec_encode_edge(e: EdgeModel) -> Seq<char> {
    spec_field(e.owned) + spec_field(e.owner) + spec_field(e.owner_index) + spec_field(
        e.owned_field,
    )
}

/// The edges in order.
pub open spec fn spec_encode_edges(edges: Seq<EdgeModel>) -> Seq<char>
    decreases edges.len(),
{
    if edges.len() == 0 {
        Seq::empty()
    } else {
        spec_encode_edge(edges.first()) + spec_encode_edges(edges.drop_first())
    }
}

/// The whole graph.
pub open spec fn spec_encode(g: GraphModel) -> Seq<char> {
    spec_tag(g.nodes.len()) + spec_encode_names(g.nodes) + spec_tag(g.edges.len())
        + spec_encode_edges(g.edges)
}

/// Greedily accumulate decimal digits from the front of `s`.
pub open spec fn spec_parse_num_acc(s: Seq<char>, acc: nat) -> (nat, Seq<char>)
    decreases s.len(),
{
    if s.len() > 0 && spec_digit_value(s.first()) is Some {
        spec_parse_num_acc(s.drop_first(), acc * 10 + spec_digit_value(s.first()).unwrap())
    } else {
        (acc, s)
    }
}

/// Parse a decimal number from the front of `s`: at least one digit.
pub open spec fn spec_parse_num(s: Seq<char>) -> Option<(nat, Seq<char>)> {
    if s.len() > 0 && spec_digit_value(s.first()) is Some {
        Some(spec_parse_num_acc(s, 0))
    } else {
        None
    }
}

/// Parse a number and its `:` terminator.
pub open spec fn spec_parse_tag(s: Seq<char>) -> Option<(nat, Seq<char>)> {
    match spec_parse_num(s) {
        Some((n, rest)) => if rest.len() > 0 && rest.first() == ':' {
            Some((n, rest.drop_first()))
        } else {
            None
        },
        None => None,
    }
}

/// Parse a length-prefixed name.
pub open spec fn spec_parse_field(s: Seq<char>) -> Option<(Seq<char>, Seq<char>)> {
    match spec_parse_tag(s) {
        Some((n, rest)) => if n <= rest.len() {
            Some((rest.take(n as int), rest.skip(n as int)))
        } else {
            None
        },
        None => None,
    }
}

/// Parse `n` names.
pub open spec fn spec_parse_names(s: Seq<char>, n: nat) -> Option<(Seq<Seq<char>>, Seq<char>)>
    decreases n,
{
    if n == 0 {
        Some((Seq::empty(), s))
    } else {
        match spec_parse_field(s) {
            Some((x, rest)) => match spec_parse_names(rest, (n - 1) as nat) {
                Some((xs, rest2)) => Some((seq![x] + xs, rest2)),
                None => None,
            },
            None => None,
        }
    }
}

/// Parse one edge: four names.
pub open spec fn spec_parse_edge(s: Seq<char>) -> Option<(EdgeModel, Seq<char>)> {
    match spec_parse_field(s) {
        Some((owned, r1)) => match spec_parse_field(r1) {
            Some((owner, r2)) => match spec_parse_field(r2) {
                Some((owner_index, r3)) => match spec_parse_field(r3) {
                    Some((owned_field, r4)) => Some(
                        (EdgeModel { owned, owner, owner_index, owned_field }, r4),
                    ),
                    None => None,
                },
                None => None,
            },
            None => None,
        },
        None => None,
    }
}

/// Parse `n` edges.
pub open spec fn spec_parse_edges(s: Seq<char>, n: nat) -> Option<(Seq<EdgeModel>, Seq<char>)>
    decreases n,
{
    if n == 0 {
        Some((Seq::empty(), s))
    } else {
        match spec_parse_edge(s) {
            Some((e, rest)) => match spec_parse_edges(rest, (n - 1) as nat) {
                Some((es, rest2)) => Some((seq![e] + es, rest2)),
                None => None,
            },
            None => None,
        }
    }
}

/// Decode a whole graph; the input must be consumed exactly.
pub open spec fn spec_decode(s: Seq<char>) -> Option<GraphModel> {
    match spec_parse_tag(s) {
        Some((nn, r1)) => match spec_parse_names(r1, nn) {
            Some((names, r2)) => match spec_parse_tag(r2) {
                Some((ne, r3)) => match spec_parse_edges(r3, ne) {
                    Some((edges, r4)) => if r4.len() == 0 {
                        Some(GraphModel { nodes: names, edges })
                    } else {
                        None
                    },
                    None => None,
                },
                None => None,
            },
            None => None,
        },
        None => None,
    }
}

/// Accumulating `m`'s digits after `acc`.
pub open spec fn spec_shift_acc(acc: nat, m: nat) -> nat
    decreases m,
{
    if m < 10 {
        acc * 10 + m
    } else {
        spec_shift_acc(acc, m / 10) * 10 + m % 10
    }
}

/// A decimal rendering is nonempty and all digits.
proof fn lemma_spec_num_digits(n: nat)
    ensures
        spec_num(n).len() >= 1,
        forall|i: int| 0 <= i < spec_num(n).len() ==> spec_digit_value(#[trigger] spec_num(n)[i]) is Some,
        spec_digit_value(spec_num(n).first()) is Some,
    decreases n,
{
    if n < 10 {
        assert(spec_digit_value(spec_digit(n)) is Some);
    } else {
        lemma_spec_num_digits(n / 10);
        assert(spec_digit_value(spec_digit(n % 10)) is Some);
        assert(forall|i: int|
            0 <= i < spec_num(n / 10).len() ==> #[trigger] spec_num(n)[i] == spec_num(n / 10)[i]);
        assert(spec_num(n).last() == spec_digit(n % 10));
        assert(spec_num(n).first() == spec_num(n / 10).first());
    }
}

/// The accumulating parser walks over a rendered number.
proof fn lemma_parse_acc_num(m: nat, tail: Seq<char>, acc: nat)
    ensures
        spec_parse_num_acc(spec_num(m) + tail, acc) == spec_parse_num_acc(
            tail,
            spec_shift_acc(acc, m),
        ),
    decreases m,
{
    let s = spec_num(m) + tail;
    if m < 10 {
        assert(s.first() == spec_digit(m));
        assert(spec_digit_value(spec_digit(m)) == Some(m));
        assert(s.drop_first() =~= tail);
    } else {
        assert(spec_num(m) =~= spec_num(m / 10) + seq![spec_digit(m % 10)]);
        assert(s =~= spec_num(m / 10) + (seq![spec_digit(m % 10)] + tail));
        lemma_parse_acc_num(m / 10, seq![spec_digit(m % 10)] + tail, acc);
        let mid = seq![spec_digit(m % 10)] + tail;
        assert(mid.first() == spec_digit(m % 10));
        assert(spec_digit_value(spec_digit(m % 10)) == Some(m % 10));
        assert(mid.drop_first() =~= tail);
        assert(spec_parse_num_acc(mid, spec_shift_acc(acc, m / 10)) == spec_parse_num_acc(
            tail,
            spec_shift_acc(acc, m / 10) * 10 + m % 10,
        ));
    }
}

/// Accumulating from zero yields the number itself.
proof fn lemma_shift_acc_zero(m: nat)
    ensures
        spec_shift_acc(0, m) == m,
    decreases m,
{
    if m >= 10 {
        lemma_shift_acc_zero(m / 10);
    }
}

/// A rendered number followed by a non-digit parses back exactly.
proof fn lemma_parse_num_round(n: nat, rest: Seq<char>)
    requires
        rest.len() == 0 || spec_digit_value(rest.first()) is None,
    ensures
        spec_parse_num(spec_num(n) + rest) == Some((n, rest)),
{
    let s = spec_num(n) + rest;
    lemma_spec_num_digits(n);
    assert(s.first() == spec_num(n).first());
    lemma_parse_acc_num(n, rest, 0);
    lemma_shift_acc_zero(n);
    assert(spec_parse_num_acc(rest, n) == (n, rest));
}

/// A rendered tag followed by anything parses back exactly.
proof fn lemma_parse_tag_round(n: nat, rest: Seq<char>)
    ensures
        spec_parse_tag(spec_tag(n) + rest) == Some((n, rest)),
{
    let mid = seq![':'] + rest;
    assert(spec_tag(n) + rest =~= spec_num(n) + mid);
    assert(mid.first() == ':');
    assert(spec_digit_value(':') is None);
    lemma_parse_num_round(n, mid);
    assert(mid.drop_first() =~= rest);
}

/// A rendered name followed by anything parses back exactly.
proof fn lemma_parse_field_round(x: Seq<char>, rest: Seq<char>)
    ensures
        spec_parse_field(spec_field(x) + rest) == Some((x, rest)),
{
    let mid = x + rest;
    assert(spec_field(x) + rest =~= spec_tag(x.len()) + mid);
    lemma_parse_tag_round(x.len(), mid);
    assert(mid.take(x.len() as int) =~= x);
    assert(mid.skip(x.len() as int) =~= rest);
}

/// Rendered names followed by anything parse back exactly.
proof fn lemma_parse_names_round(names: Seq<Seq<char>>, rest: Seq<char>)
    ensures
        spec_parse_names(spec_encode_names(names) + rest, names.len()) == Some((names, rest)),
    decreases names.len(),
{
    if names.len() == 0 {
        assert(spec_encode_names(names) + rest =~= rest);
        assert(spec_parse_names(rest, 0) == Some((Seq::<Seq<char>>::empty(), rest)));
        assert(names =~= Seq::<Seq<char>>::empty());
    } else {
        let tail_enc = spec_encode_names(names.drop_first()) + rest;
        assert(spec_encode_names(names) + rest =~= spec_field(names.first()) + tail_enc);
        lemma_parse_field_round(names.first(), tail_enc);
        lemma_parse_names_round(names.drop_first(), rest);
        assert(seq![names.first()] + names.drop_first() =~= names);
    }
}

/// A rendered edge followed by anything parses back exactly.
proof fn lemma_parse_edge_round(e: EdgeModel, rest: Seq<char>)
    ensures
        spec_parse_edge(spec_encode_edge(e) + rest) == Some((e, rest)),
{
    let r3 = spec_field(e.owned_field) + rest;
    let r2 = spec_field(e.owner_index) + r3;
    let r1 = spec_field(e.owner) + r2;
    assert(spec_encode_edge(e) + rest =~= spec_field(e.owned) + r1);
    lemma_parse_field_round(e.owned, r1);
    lemma_parse_field_round(e.owner, r2);
    lemma_parse_field_round(e.owner_index, r3);
    lemma_parse_field_round(e.owned_field, rest);
}

/// Rendered edges followed by anything parse back exactly.
proof fn lemma_parse_edges_round(edges: Seq<EdgeModel>, rest: Seq<char>)
    ensures
        spec_parse_edges(spec_encode_edges(edges) + rest, edges.len()) == Some((edges, rest)),
    decreases edges.len(),
{
    if edges.len() == 0 {
        assert(spec_encode_edges(edges) + rest =~= rest);
        assert(edges =~= Seq::<EdgeModel>::empty());
    } else {
        let tail_enc = spec_encode_edges(edges.drop_first()) + rest;
        assert(spec_encode_edges(edges) + rest =~= spec_encode_edge(edges.first()) + tail_enc);
        lemma_parse_edge_round(edges.first(), tail_enc);
        lemma_parse_edges_round(edges.drop_first(), rest);
        assert(seq![edges.first()] + edges.drop_first() =~= edges);
    }
}

/// Decoding an encoded graph yields the graph itself: the codec
/// round-trips, node list, edge list and labels included.
pub proof fn lemma_codec_round_trip(g: GraphModel)
    ensures
        spec_decode(spec_encode(g)) == Some(g),
{
    let enc_names = spec_encode_names(g.nodes);
    let enc_edges = spec_encode_edges(g.edges);
    let after_names = spec_tag(g.edges.len()) + enc_edges;
    let r1 = enc_names + after_names;
    assert(spec_encode(g) =~= spec_tag(g.nodes.len()) + r1);
    lemma_parse_tag_round(g.nodes.len(), r1);
    assert(enc_names + after_names =~= spec_encode_names(g.nodes) + after_names);
    lemma_parse_names_round(g.nodes, after_names);
    lemma_parse_tag_round(g.edges.len(), enc_edges);
    assert(enc_edges =~= spec_encode_edges(g.edges) + Seq::<char>::empty());
    lemma_parse_edges_round(g.edges, Seq::empty());
}

/// A graph rebuilt from a decoded model answers `edges_incoming` exactly as
/// the original graph did, for every collection.
pub proof fn lemma_round_trip_edges_incoming(g: GraphModel, c: Seq<char>)
    ensures
        spec_decode(spec_encode(g)) matches Some(g2) && crate::graph::spec_edges_incoming(
            g2.edges,
            c,
        ) == crate::graph::spec_edges_incoming(g.edges, c),
{
    lemma_codec_round_trip(g);
}

/// The accumulating parser never shrinks its accumulator.
proof fn lemma_parse_acc_ge(s: Seq<char>, acc: nat)
    ensures
        spec_parse_num_acc(s, acc).0 >= acc,
    decreases s.len(),
{
    if s.len() > 0 && spec_digit_value(s.first()) is Some {
        lemma_parse_acc_ge(s.drop_first(), acc * 10 + spec_digit_value(s.first()).unwrap());
    }
}

/// The accumulating parser returns a suffix of its input, a proper one when
/// the input starts with a digit.
proof fn lemma_parse_acc_suffix(s: Seq<char>, acc: nat)
    ensures
        spec_parse_num_acc(s, acc).1.len() <= s.len(),
        s.len() > 0 && spec_digit_value(s.first()) is Some ==> spec_parse_num_acc(s, acc).1.len()
            < s.len(),
    decreases s.len(),
{
    if s.len() > 0 && spec_digit_value(s.first()) is Some {
        lemma_parse_acc_suffix(s.drop_first(), acc * 10 + spec_digit_value(s.first()).unwrap());
    }
}

/// A parsed name consumes at least the length tag.
proof fn lemma_parse_field_consumes(s: Seq<char>)
    ensures
        spec_parse_field(s) matches Some((_, rest)) ==> rest.len() < s.len(),
{
    if spec_parse_field(s) is Some {
        lemma_parse_acc_suffix(s, 0);
    }
}

/// Parsing `n` names needs an input of at least `n` characters.
proof fn lemma_parse_names_bound(s: Seq<char>, n: nat)
    ensures
        spec_parse_names(s, n) is Some ==> n <= s.len(),
    decreases n,
{
    if n > 0 && spec_parse_names(s, n) is Some {
        lemma_parse_field_consumes(s);
        let (_, rest) = spec_parse_field(s).unwrap();
        lemma_parse_names_bound(rest, (n - 1) as nat);
    }
}

/// A parsed edge consumes at least one character.
proof fn lemma_parse_edge_consumes(s: Seq<char>)
    ensures
        spec_parse_edge(s) matches Some((_, rest)) ==> rest.len() < s.len(),
{
    if spec_parse_edge(s) is Some {
        lemma_parse_field_consumes(s);
        let (_, r1) = spec_parse_field(s).unwrap();
        lemma_parse_field_consumes(r1);
        let (_, r2) = spec_parse_field(r1).unwrap();
        lemma_parse_field_consumes(r2);
        let (_, r3) = spec_parse_field(r2).unwrap();
        lemma_parse_field_consumes(r3);
    }
}

/// Parsing `n` edges needs an input of at least `n` characters.
proof fn lemma_parse_edges_bound(s: Seq<char>, n: nat)
    ensures
        spec_parse_edges(s, n) is Some ==> n <= s.len(),
    decreases n,
{
    if n > 0 && spec_parse_edges(s, n) is Some {
        lemma_parse_edge_consumes(s);
        let (_, rest) = spec_parse_edge(s).unwrap();
        lemma_parse_edges_bound(rest, (n - 1) as nat);
    }
}

/// Relies on `String::push`: appends the given character to the end of the
/// string.
#[verifier::external_body]
fn push_char(s: &mut String, c: char)
    ensures
        final(s)@ == old(s)@.push(c),
{
    s.push(c);
}

/// The digit character for `d`.
fn digit_char(d: usize) -> (c: char)
    requires
        d < 10,
    ensures
        c == spec_digit(d as nat),
{
    if d == 0 {
        '0'
    } else if d == 1 {
        '1'
    } else if d == 2 {
        '2'
    } else if d == 3 {
        '3'
    } else if d == 4 {
        '4'
    } else if d == 5 {
        '5'
    } else if d == 6 {
        '6'
    } else if d == 7 {
        '7'
    } else if d == 8 {
        '8'
    } else {
        '9'
    }
}

/// The value of a digit character, or nothing.
fn digit_value(c: char) -> (r: Option<usize>)
    ensures
        match r {
            Some(d) => spec_digit_value(c) == Some(d as nat),
            None => spec_digit_value(c) is None,
        },
{
    if c == '0' {
        Some(0)
    } else if c == '1' {
        Some(1)
    } else if c == '2' {
        Some(2)
    } else if c == '3' {
        Some(3)
    } else if c == '4' {
        Some(4)
    } else if c == '5' {
        Some(5)
    } else if c == '6' {
        Some(6)
    } else if c == '7' {
        Some(7)
    } else if c == '8' {
        Some(8)
    } else if c == '9' {
        Some(9)
    } else {
        None
    }
}

/// Append `n` in decimal.
fn push_num(out: &mut String, n: usize)
    ensures
        final(out)@ == old(out)@ + spec_num(n as nat),
    decreases n,
{
    if n < 10 {
        push_char(out, digit_char(n));
        proof {
            assert(old(out)@.push(spec_digit(n as nat)) =~= old(out)@ + spec_num(n as nat));
        }
    } else {
        push_num(out, n / 10);
        push_char(out, digit_char(n % 10));
        proof {
            assert((old(out)@ + spec_num((n / 10) as nat)).push(spec_digit((n % 10) as nat))
                =~= old(out)@ + spec_num(n as nat));
        }
    }
}

/// Append `n` and its `:` terminator.
fn push_tag(out: &mut String, n: usize)
    ensures
        final(out)@ == old(out)@ + spec_tag(n as nat),
{
    push_num(out, n);
    push_char(out, ':');
    proof {
        assert((old(out)@ + spec_num(n as nat)).push(':') =~= old(out)@ + spec_tag(n as nat));
    }
}

/// Append a length-prefixed name.
#[verifier::loop_isolation(false)]
fn push_field(out: &mut String, x: &str)
    ensures
        final(out)@ == old(out)@ + spec_field(x@),
{
    let len = x.unicode_len();
    push_tag(out, len);
    let mut i: usize = 0;
    while i < len
        invariant
            i <= len,
            len == x@.len(),
            out@ == old(out)@ + spec_tag(x@.len()) + x@.take(i as int),
        decreases len - i,
    {
        push_char(out, x.get_char(i));
        proof {
            assert(x@.take(i + 1) =~= x@.take(i as int).push(x@[i as int]));
            assert((old(out)@ + spec_tag(x@.len()) + x@.take(i as int)).push(x@[i as int])
                =~= old(out)@ + spec_tag(x@.len()) + x@.take(i + 1));
        }
        i = i + 1;
    }
    proof {
        assert(x@.take(len as int) =~= x@);
        assert(old(out)@ + spec_tag(x@.len()) + x@ =~= old(out)@ + spec_field(x@));
    }
}

/// Appending one more name to an encoded name list.
proof fn lemma_encode_names_snoc(names: Seq<Seq<char>>, x: Seq<char>)
    ensures
        spec_encode_names(names.push(x)) == spec_encode_names(names) + spec_field(x),
    decreases names.len(),
{
    if names.len() == 0 {
        assert(names.push(x).first() == x);
        assert(names.push(x).drop_first() =~= names);
        assert(spec_field(x) + Seq::<char>::empty() =~= Seq::<char>::empty() + spec_field(x));
    } else {
        assert(names.push(x).first() == names.first());
        assert(names.push(x).drop_first() =~= names.drop_first().push(x));
        lemma_encode_names_snoc(names.drop_first(), x);
        assert(spec_field(names.first()) + (spec_encode_names(names.drop_first()) + spec_field(x))
            =~= (spec_field(names.first()) + spec_encode_names(names.drop_first())) + spec_field(
            x,
        ));
    }
}

/// Appending one more edge to an encoded edge list.
proof fn lemma_encode_edges_snoc(edges: Seq<EdgeModel>, e: EdgeModel)
    ensures
        spec_encode_edges(edges.push(e)) == spec_encode_edges(edges) + spec_encode_edge(e),
    decreases edges.len(),
{
    if edges.len() == 0 {
        assert(edges.push(e).first() == e);
        assert(edges.push(e).drop_first() =~= edges);
        assert(spec_encode_edge(e) + Seq::<char>::empty() =~= Seq::<char>::empty()
            + spec_encode_edge(e));
    } else {
        assert(edges.push(e).first() == edges.first());
        assert(edges.push(e).drop_first() =~= edges.drop_first().push(e));
        lemma_encode_edges_snoc(edges.drop_first(), e);
        assert(spec_encode_edge(edges.first()) + (spec_encode_edges(edges.drop_first())
            + spec_encode_edge(e)) =~= (spec_encode_edge(edges.first()) + spec_encode_edges(
            edges.drop_first(),
        )) + spec_encode_edge(e));
    }
}

/// Serialize the graph into its length-prefixed text form.
#[verifier::loop_isolation(false)]
pub fn serialize_graph(g: &OwnershipGraph) -> (s: String)
    ensures
        s@ == spec_encode(g@),
{
    let mut out = String::new();
    let nn = g.node_count();
    push_tag(&mut out, nn);
    let mut i: usize = 0;
    while i < nn
        invariant
            i <= nn,
            out@ == spec_tag(g@.nodes.len()) + spec_encode_names(g@.nodes.take(i as int)),
        decreases nn - i,
    {
        push_field(&mut out, g.node_at(i).as_str());
        proof {
            assert(g@.nodes.take(i + 1) =~= g@.nodes.take(i as int).push(g@.nodes[i as int]));
            lemma_encode_names_snoc(g@.nodes.take(i as int), g@.nodes[i as int]);
            assert(spec_tag(g@.nodes.len()) + spec_encode_names(g@.nodes.take(i as int))
                + spec_field(g@.nodes[i as int]) =~= spec_tag(g@.nodes.len())
                + spec_encode_names(g@.nodes.take(i + 1)));
        }
        i = i + 1;
    }
    proof {
        assert(g@.nodes.take(nn as int) =~= g@.nodes);
    }
    let ne = g.edge_count();
    let ghost head = spec_tag(g@.nodes.len()) + spec_encode_names(g@.nodes);
    push_tag(&mut out, ne);
    proof {
        assert(head + spec_tag(g@.edges.len()) =~= out@);
    }
    let mut j: usize = 0;
    while j < ne
        invariant
            j <= ne,
            out@ == head + spec_tag(g@.edges.len()) + spec_encode_edges(g@.edges.take(j as int)),
        decreases ne - j,
    {
        let ghost before = out@;
        let e = g.edge_at(j);
        push_field(&mut out, e.owned.as_str());
        push_field(&mut out, e.owner.as_str());
        push_field(&mut out, e.label.owner_index.as_str());
        push_field(&mut out, e.label.owned_field.as_str());
        proof {
            let ev = g@.edges[j as int];
            assert(out@ =~= before + spec_encode_edge(ev));
            assert(g@.edges.take(j + 1) =~= g@.edges.take(j as int).push(ev));
            lemma_encode_edges_snoc(g@.edges.take(j as int), ev);
            assert(before + spec_encode_edge(ev) =~= head + spec_tag(g@.edges.len())
                + spec_encode_edges(g@.edges.take(j + 1)));
        }
        j = j + 1;
    }
    proof {
        assert(g@.edges.take(ne as int) =~= g@.edges);
        assert(out@ =~= spec_encode(g@));
    }
    out
}

/// Parse a decimal number starting at position `i`.
#[verifier::loop_isolation(false)]
fn parse_num(s: &str, i: usize, len: usize) -> (r: Option<(usize, usize)>)
    requires
        len == s@.len(),
        i <= len,
    ensures
        match r {
            Some((v, j)) => i <= j <= len && spec_parse_num(s@.skip(i as int)) == Some(
                (v as nat, s@.skip(j as int)),
            ),
            None => match spec_parse_num(s@.skip(i as int)) {
                Some((v, _)) => v > usize::MAX,
                None => true,
            },
        },
{
    if i >= len {
        proof {
            assert(s@.skip(i as int).len() == 0);
        }
        return None;
    }
    proof {
        assert(s@.skip(i as int).first() == s@[i as int]);
    }
    let c0 = s.get_char(i);
    if digit_value(c0).is_none() {
        return None;
    }
    let mut v: usize = 0;
    let mut j: usize = i;
    loop
        invariant
            i <= j <= len,
            spec_parse_num_acc(s@.skip(i as int), 0) == spec_parse_num_acc(
                s@.skip(j as int),
                v as nat,
            ),
        decreases len - j,
    {
        if j >= len {
            proof {
                assert(s@.skip(j as int).len() == 0);
            }
            return Some((v, j));
        }
        proof {
            assert(s@.skip(j as int).first() == s@[j as int]);
        }
        let c = s.get_char(j);
        match digit_value(c) {
            Some(d) => {
                if v > (usize::MAX - d) / 10 {
                    proof {
                        assert((v as nat) * 10 + d > usize::MAX) by (nonlinear_arith)
                            requires
                                v > (usize::MAX - d) / 10,
                                d <= 9,
                        ;
                        assert(s@.skip(j as int).drop_first() =~= s@.skip(j + 1));
                        assert(spec_parse_num_acc(s@.skip(j as int), v as nat)
                            == spec_parse_num_acc(s@.skip(j + 1), ((v as nat) * 10 + d) as nat));
                        lemma_parse_acc_ge(s@.skip(j + 1), ((v as nat) * 10 + d) as nat);
                    }
                    return None;
                }
                proof {
                    assert((v as nat) * 10 + d <= usize::MAX) by (nonlinear_arith)
                        requires
                            v <= (usize::MAX - d) / 10,
                            d <= 9,
                    ;
                    assert(s@.skip(j as int).drop_first() =~= s@.skip(j + 1));
                }
                v = v * 10 + d;
                j = j + 1;
            },
            None => {
                return Some((v, j));
            },
        }
    }
}

/// Parse a number and its `:` terminator.
fn parse_tag(s: &str, i: usize, len: usize) -> (r: Option<(usize, usize)>)
    requires
        len == s@.len(),
        i <= len,
    ensures
        match r {
            Some((v, j)) => i <= j <= len && spec_parse_tag(s@.skip(i as int)) == Some(
                (v as nat, s@.skip(j as int)),
            ),
            None => match spec_parse_tag(s@.skip(i as int)) {
                Some((v, _)) => v > usize::MAX,
                None => true,
            },
        },
{
    match parse_num(s, i, len) {
        Some((v, j)) => {
            if j < len {
                proof {
                    assert(s@.skip(j as int).first() == s@[j as int]);
                }
                let c = s.get_char(j);
                if c == ':' {
                    proof {
                        assert(s@.skip(j as int).drop_first() =~= s@.skip(j + 1));
                    }
                    Some((v, j + 1))
                } else {
                    None
                }
            } else {
                proof {
                    assert(s@.skip(j as int).len() == 0);
                }
                None
            }
        },
        None => None,
    }
}

/// Parse a length-prefixed name starting at position `i`.
#[verifier::loop_isolation(false)]
fn parse_field(s: &str, i: usize, len: usize) -> (r: Option<(String, usize)>)
    requires
        len == s@.len(),
        i <= len,
    ensures
        match r {
            Some((x, j)) => i <= j <= len && spec_parse_field(s@.skip(i as int)) == Some(
                (x@, s@.skip(j as int)),
            ),
            None => spec_parse_field(s@.skip(i as int)) is None,
        },
{
    match parse_tag(s, i, len) {
        Some((n, j)) => {
            if n > len - j {
                proof {
                    assert(s@.skip(j as int).len() == len - j);
                }
                return None;
            }
            let mut x = String::new();
            let mut k: usize = 0;
            while k < n
                invariant
                    k <= n,
                    j + n <= len,
                    x@ == s@.skip(j as int).take(k as int),
                decreases n - k,
            {
                push_char(&mut x, s.get_char(j + k));
                proof {
                    assert(s@.skip(j as int)[k as int] == s@[j + k]);
                    assert(s@.skip(j as int).take(k + 1) =~= s@.skip(j as int).take(
                        k as int,
                    ).push(s@[j + k]));
                }
                k = k + 1;
            }
            proof {
                assert(s@.skip(j as int).skip(n as int) =~= s@.skip(j + n));
            }
            Some((x, j + n))
        },
        None => {
            proof {
                match spec_parse_tag(s@.skip(i as int)) {
                    Some((v, rest)) => {
                        assert(v > usize::MAX);
                        lemma_parse_acc_suffix(s@.skip(i as int), 0);
                        assert(rest.len() <= s@.skip(i as int).len());
                        assert(rest.len() < v);
                    },
                    None => {},
                }
            }
            None
        },
    }
}

/// Parse the serialized form back into a graph.  The result is well formed
/// and acyclic; text that does not decode, or decodes to a graph with
/// duplicate nodes, dangling edge endpoints or a cycle, is rejected.
#[verifier::loop_isolation(false)]
#[verifier::rlimit(50)]
pub fn deserialize_graph(s: &str) -> (r: Option<OwnershipGraph>)
    ensures
        match r {
            Some(g2) => g2.wf() && spec_decode(s@) == Some(g2@),
            None => match spec_decode(s@) {
                Some(gm) => !(graph_wf(gm) && graph_acyclic(gm)),
                None => true,
            },
        },
{
    let len = s.unicode_len();
    proof {
        assert(s@.skip(0) =~= s@);
    }
    let (nn, pos1) = match parse_tag(s, 0, len) {
        Some(t) => t,
        None => {
            proof {
                match spec_parse_tag(s@) {
                    Some((v, rest)) => {
                        lemma_parse_acc_suffix(s@, 0);
                        lemma_parse_names_bound(rest, v);
                    },
                    None => {},
                }
            }
            return None;
        },
    };
    let ghost r1 = s@.skip(pos1 as int);
    let mut names: Vec<String> = Vec::new();
    let mut pos: usize = pos1;
    let mut k: usize = 0;
    while k < nn
        invariant
            k <= nn,
            pos1 <= pos <= len,
            names@.len() == k,
            spec_parse_names(r1, nn as nat) == (match spec_parse_names(
                s@.skip(pos as int),
                (nn - k) as nat,
            ) {
                Some((tail, rest)) => Some(
                    (names@.map_values(|x: String| x@) + tail, rest),
                ),
                None => None,
            }),
        decreases nn - k,
    {
        match parse_field(s, pos, len) {
            Some((x, j)) => {
                proof {
                    let nv = names@.map_values(|y: String| y@);
                    match spec_parse_names(s@.skip(j as int), (nn - k - 1) as nat) {
                        Some((tail, rest)) => {
                            assert(nv + (seq![x@] + tail) =~= nv.push(x@) + tail);
                            assert(names@.push(x).map_values(|y: String| y@) =~= nv.push(x@));
                        },
                        None => {},
                    }
                }
                names.push(x);
                pos = j;
                k = k + 1;
            },
            None => {
                return None;
            },
        }
    }
    proof {
        let nv = names@.map_values(|y: String| y@);
        assert(nv + Seq::<Seq<char>>::empty() =~= nv);
        assert(spec_parse_names(r1, nn as nat) == Some((nv, s@.skip(pos as int))));
    }
    let (ne, pos2) = match parse_tag(s, pos, len) {
        Some(t) => t,
        None => {
            proof {
                match spec_parse_tag(s@.skip(pos as int)) {
                    Some((v, rest)) => {
                        lemma_parse_acc_suffix(s@.skip(pos as int), 0);
                        lemma_parse_edges_bound(rest, v);
                    },
                    None => {},
                }
            }
            return None;
        },
    };
    let ghost r3 = s@.skip(pos2 as int);
    let mut parsed: Vec<GraphEdge> = Vec::new();
    let mut pos_e: usize = pos2;
    let mut q: usize = 0;
    while q < ne
        invariant
            q <= ne,
            pos2 <= pos_e <= len,
            parsed@.len() == q,
            spec_parse_edges(r3, ne as nat) == (match spec_parse_edges(
                s@.skip(pos_e as int),
                (ne - q) as nat,
            ) {
                Some((tail, rest)) => Some(
                    (parsed@.map_values(|e: GraphEdge| e@) + tail, rest),
                ),
                None => None,
            }),
        decreases ne - q,
    {
        let (owned, ja) = match parse_field(s, pos_e, len) {
            Some(t) => t,
            None => {
                return None;
            },
        };
        let (owner, jb) = match parse_field(s, ja, len) {
            Some(t) => t,
            None => {
                return None;
            },
        };
        let (owner_index, jc) = match parse_field(s, jb, len) {
            Some(t) => t,
            None => {
                return None;
            },
        };
        let (owned_field, jd) = match parse_field(s, jc, len) {
            Some(t) => t,
            None => {
                return None;
            },
        };
        let edge = GraphEdge { owned, owner, label: OwnEdge { owner_index, owned_field } };
        proof {
            let pv = parsed@.map_values(|e: GraphEdge| e@);
            assert(spec_parse_edge(s@.skip(pos_e as int)) == Some((edge@, s@.skip(jd as int))));
            match spec_parse_edges(s@.skip(jd as int), (ne - q - 1) as nat) {
                Some((tail, rest)) => {
                    assert(pv + (seq![edge@] + tail) =~= pv.push(edge@) + tail);
                    assert(parsed@.push(edge).map_values(|e: GraphEdge| e@) =~= pv.push(edge@));
                },
                None => {},
            }
        }
        parsed.push(edge);
        pos_e = jd;
        q = q + 1;
    }
    proof {
        let pv = parsed@.map_values(|e: GraphEdge| e@);
        assert(pv + Seq::<EdgeModel>::empty() =~= pv);
        assert(spec_parse_edges(r3, ne as nat) == Some((pv, s@.skip(pos_e as int))));
    }
    if pos_e != len {
        proof {
            assert(s@.skip(pos_e as int).len() > 0);
        }
        return None;
    }
    proof {
        assert(s@.skip(pos_e as int).len() == 0);
    }
    let ghost gm = GraphModel {
        nodes: names@.map_values(|y: String| y@),
        edges: parsed@.map_values(|e: GraphEdge| e@),
    };
    proof {
        assert(spec_decode(s@) == Some(gm));
    }
    // rebuild strictly: duplicate nodes, dangling endpoints and cycles are
    // all grounds for rejection
    let mut g = OwnershipGraph::new();
    let n_names = names.len();
    let mut a: usize = 0;
    while a < n_names
        invariant
            a <= n_names,
            n_names == names@.len(),
            g.wf(),
            g@.nodes == gm.nodes.take(a as int),
            g@.edges == Seq::<EdgeModel>::empty(),
        decreases n_names - a,
    {
        if g.contains_node(names[a].as_str()) {
            proof {
                let j = choose|j: int| 0 <= j < g@.nodes.len() && g@.nodes[j] == names@[a as int]@;
                assert(gm.nodes[j] == gm.nodes[a as int]);
                assert(!graph_wf(gm));
            }
            return None;
        }
        g.ensure_node(names[a].as_str());
        proof {
            assert(g@.nodes =~= gm.nodes.take(a + 1));
        }
        a = a + 1;
    }
    proof {
        assert(gm.nodes.take(n_names as int) =~= gm.nodes);
    }
    let n_parsed = parsed.len();
    let mut b: usize = 0;
    while b < n_parsed
        invariant
            b <= n_parsed,
            n_parsed == parsed@.len(),
            g.wf(),
            g@.nodes == gm.nodes,
            g@.edges == gm.edges.take(b as int),
        decreases n_parsed - b,
    {
        let e = &parsed[b];
        proof {
            assert(e@ == gm.edges[b as int]);
        }
        if !g.contains_node(e.owned.as_str()) {
            proof {
                assert(!contains_name(gm.nodes, gm.edges[b as int].owned));
                assert(!graph_wf(gm));
            }
            return None;
        }
        if !g.contains_node(e.owner.as_str()) {
            proof {
                assert(!contains_name(gm.nodes, gm.edges[b as int].owner));
                assert(!graph_wf(gm));
            }
            return None;
        }
        let label = OwnEdge {
            owner_index: e.label.owner_index.clone(),
            owned_field: e.label.owned_field.clone(),
        };
        let ghost g_pre = g@;
        match g.add_edge(e.owned.as_str(), e.owner.as_str(), label) {
            Ok(()) => {
                proof {
                    assert(append_if_missing(g_pre.nodes, gm.edges[b as int].owned) == g_pre.nodes);
                    assert(append_if_missing(g_pre.nodes, gm.edges[b as int].owner)
                        == g_pre.nodes);
                    assert(g@.nodes == gm.nodes);
                    assert(g@.edges =~= gm.edges.take(b + 1));
                }
            },
            Err(_) => {
                proof {
                    let failed = spec_add_edge(
                        g_pre,
                        gm.edges[b as int].owned,
                        gm.edges[b as int].owner,
                        gm.edges[b as int].owner_index,
                        gm.edges[b as int].owned_field,
                    );
                    assert(failed.edges =~= gm.edges.take(b + 1));
                    assert(forall|i: int|
                        0 <= i < failed.edges.len() ==> #[trigger] gm.edges[i] == failed.edges[i]);
                    crate::graph::lemma_cyclic_extend(failed, gm);
                }
                return None;
            },
        }
        b = b + 1;
    }
    proof {
        assert(gm.edges.take(n_parsed as int) =~= gm.edges);
        assert(g@ == gm);
    }
    Some(g)
}

} // verus!
