//! What an encoding tells of a pipeline: two pipelines that are encoded alike are alike.

use super::checks;
use super::encoding;
use super::laws;
use super::NodePolicy;
use crate::binding::{DataEdge, OrderingEdge, TriggerRule};
use crate::bytes;
use crate::flow::{self, NodeView, PipelineView, StableTypeNamesView};
use crate::handle::NodeId;
use crate::names;
use crate::text;
use crate::time::MAX_NANOS;
use vstd::prelude::*;
use vstd::utf8::*;

verus! {

/// Whether the length of a text fits the field that it is framed with.
pub open spec fn fits(s: Seq<char>) -> bool {
    encode_utf8(s).len() < 0x1_0000_0000_0000_0000
}

/// Whether the lengths of declared stable names fit.
pub open spec fn stable_fits(declared: Option<StableTypeNamesView>) -> bool {
    declared matches Some(d) ==> fits(d.task) && fits(d.output) && forall|k: int|
        0 <= k < d.inputs.len() ==> fits(#[trigger] d.inputs[k])
}

/// The position from which on the bytes of a data edge can begin as those of an ordering
/// edge and of what follows it do: the marks of an ordering edge and of a consumer.
pub const AMBIGUOUS_POSITION: u64 = 0x634f;

/// One piece of the structural encoding.
enum Piece {
    Node { name: Seq<char>, stable: Option<StableTypeNamesView>, rule: TriggerRule },
    Data { consumer: Seq<char>, producer: Seq<char>, position: nat, carried: Option<Seq<char>> },
    After { consumer: Seq<char>, producer: Seq<char> },
}

spec fn carried_bytes(carried: Option<Seq<char>>) -> Seq<u8> {
    match carried {
        Some(s) => encoding::framed_text(encoding::TAG_CARRIED, s),
        None => bytes::framed(encoding::TAG_CARRIES_UNNAMED, Seq::empty()),
    }
}

spec fn rule_bytes(rule: TriggerRule) -> Seq<u8> {
    bytes::framed(encoding::TAG_RULE, seq![encoding::trigger_rule_code(rule)])
}

/// What follows the producer in the bytes of a data edge.
spec fn data_end(position: nat, carried: Option<Seq<char>>) -> Seq<u8> {
    bytes::le(position, 8) + (seq![encoding::KIND_DATA] + carried_bytes(carried))
}

spec fn piece_bytes(piece: Piece) -> Seq<u8> {
    match piece {
        Piece::Node { name, stable, rule } => encoding::framed_text(encoding::TAG_NODE, name) + (
        encoding::stable_encoding(stable) + rule_bytes(rule)),
        Piece::Data { consumer, producer, position, carried } => encoding::framed_text(
            encoding::TAG_CONSUMER,
            consumer,
        ) + (encoding::framed_text(encoding::TAG_PRODUCER, producer) + data_end(position, carried)),
        Piece::After { consumer, producer } => encoding::framed_text(encoding::TAG_CONSUMER, consumer) + (
        encoding::framed_text(encoding::TAG_PRODUCER, producer) + seq![encoding::KIND_ORDERING]),
    }
}

spec fn valid(piece: Piece) -> bool {
    match piece {
        Piece::Node { name, stable, rule } => fits(name) && stable_fits(stable),
        Piece::Data { consumer, producer, position, carried } => fits(consumer) && fits(producer) && position
            < AMBIGUOUS_POSITION && (carried matches Some(s) ==> fits(s)),
        Piece::After { consumer, producer } => fits(consumer) && fits(producer),
    }
}

spec fn joined(pieces: Seq<Piece>) -> Seq<u8>
    decreases pieces.len(),
{
    if pieces.len() == 0 {
        Seq::empty()
    } else {
        piece_bytes(pieces[0]) + joined(pieces.drop_first())
    }
}

/// Whether bytes are at their end or begin as a piece does.
spec fn at_piece(rest: Seq<u8>) -> bool {
    rest.len() == 0 || rest[0] == encoding::TAG_NODE || rest[0] == encoding::TAG_CONSUMER
}

proof fn lemma_text(tag1: u8, s1: Seq<char>, rest1: Seq<u8>, tag2: u8, s2: Seq<char>, rest2: Seq<u8>)
    requires
        fits(s1),
        fits(s2),
        encoding::framed_text(tag1, s1) + rest1 == encoding::framed_text(tag2, s2) + rest2,
    ensures
        tag1 == tag2,
        s1 == s2,
        rest1 == rest2,
{
    bytes::law_framing_is_unambiguous(tag1, encode_utf8(s1), rest1, tag2, encode_utf8(s2), rest2);
    text::lemma_encoding_injective(s1, s2);
}

proof fn lemma_fixed(a: Seq<u8>, x: Seq<u8>, b: Seq<u8>, y: Seq<u8>)
    requires
        a.len() == b.len(),
        a + x == b + y,
    ensures
        a == b,
        x == y,
{
    let n = a.len() as int;
    assert((a + x).take(n) =~= a);
    assert((b + y).take(n) =~= b);
    assert((a + x).skip(n) =~= x);
    assert((b + y).skip(n) =~= y);
}

proof fn lemma_number(m: nat, x: Seq<u8>, n: nat, y: Seq<u8>, width: nat)
    requires
        m < bytes::bound(width),
        n < bytes::bound(width),
        bytes::le(m, width) + x == bytes::le(n, width) + y,
    ensures
        m == n,
        x == y,
{
    bytes::lemma_le_len(m, width);
    bytes::lemma_le_len(n, width);
    lemma_fixed(bytes::le(m, width), x, bytes::le(n, width), y);
    bytes::lemma_le_injective(m, n, width);
}

proof fn lemma_inputs_front(inputs: Seq<Seq<char>>)
    requires
        inputs.len() > 0,
    ensures
        encoding::inputs_encoding(inputs) == encoding::framed_text(encoding::TAG_INPUT, inputs[0])
            + encoding::inputs_encoding(inputs.drop_first()),
    decreases inputs.len(),
{
    let front = inputs.drop_last();
    let rest = inputs.drop_first();
    let last = encoding::framed_text(encoding::TAG_INPUT, inputs.last());
    if inputs.len() == 1 {
        assert(encoding::inputs_encoding(front) =~= Seq::<u8>::empty());
        assert(encoding::inputs_encoding(rest) =~= Seq::<u8>::empty());
        assert(encoding::inputs_encoding(inputs) =~= last);
        assert(last + encoding::inputs_encoding(rest) =~= last);
    } else {
        lemma_inputs_front(front);
        assert(front.drop_first() =~= rest.drop_last());
        assert(rest.last() == inputs.last());
        let first = encoding::framed_text(encoding::TAG_INPUT, inputs[0]);
        let middle = encoding::inputs_encoding(front.drop_first());
        assert((first + middle) + last =~= first + (middle + last));
    }
}

spec fn inputs_end() -> Seq<u8> {
    bytes::framed(encoding::TAG_INPUTS_END, Seq::empty())
}

proof fn lemma_inputs(x: Seq<Seq<char>>, rest1: Seq<u8>, y: Seq<Seq<char>>, rest2: Seq<u8>)
    requires
        forall|k: int| 0 <= k < x.len() ==> fits(#[trigger] x[k]),
        forall|k: int| 0 <= k < y.len() ==> fits(#[trigger] y[k]),
        encoding::inputs_encoding(x) + (inputs_end() + rest1) == encoding::inputs_encoding(y) + (inputs_end() + rest2),
    ensures
        x == y,
        rest1 == rest2,
    decreases x.len(),
{
    let a = inputs_end() + rest1;
    let b = inputs_end() + rest2;
    let end = Seq::<u8>::empty();
    if x.len() > 0 {
        lemma_inputs_front(x);
        let ex = encoding::inputs_encoding(x.drop_first());
        assert(encoding::inputs_encoding(x) + a =~= encoding::framed_text(encoding::TAG_INPUT, x[0]) + (ex + a));
    } else {
        assert(encoding::inputs_encoding(x) + a =~= a);
    }
    if y.len() > 0 {
        lemma_inputs_front(y);
        let ey = encoding::inputs_encoding(y.drop_first());
        assert(encoding::inputs_encoding(y) + b =~= encoding::framed_text(encoding::TAG_INPUT, y[0]) + (ey + b));
    } else {
        assert(encoding::inputs_encoding(y) + b =~= b);
    }
    if x.len() == 0 && y.len() == 0 {
        bytes::law_framing_is_unambiguous(encoding::TAG_INPUTS_END, end, rest1, encoding::TAG_INPUTS_END, end, rest2);
        assert(x =~= y);
    } else if x.len() == 0 {
        let ey = encoding::inputs_encoding(y.drop_first());
        bytes::law_framing_is_unambiguous(
            encoding::TAG_INPUTS_END,
            end,
            rest1,
            encoding::TAG_INPUT,
            encode_utf8(y[0]),
            ey + b,
        );
    } else if y.len() == 0 {
        let ex = encoding::inputs_encoding(x.drop_first());
        bytes::law_framing_is_unambiguous(
            encoding::TAG_INPUT,
            encode_utf8(x[0]),
            ex + a,
            encoding::TAG_INPUTS_END,
            end,
            rest2,
        );
    } else {
        let ex = encoding::inputs_encoding(x.drop_first());
        let ey = encoding::inputs_encoding(y.drop_first());
        lemma_text(encoding::TAG_INPUT, x[0], ex + a, encoding::TAG_INPUT, y[0], ey + b);
        assert forall|k: int| 0 <= k < x.drop_first().len() implies fits(#[trigger] x.drop_first()[k]) by {
            assert(fits(x[k + 1]));
        }
        assert forall|k: int| 0 <= k < y.drop_first().len() implies fits(#[trigger] y.drop_first()[k]) by {
            assert(fits(y[k + 1]));
        }
        lemma_inputs(x.drop_first(), rest1, y.drop_first(), rest2);
        assert(x =~= seq![x[0]] + x.drop_first());
        assert(y =~= seq![y[0]] + y.drop_first());
    }
}

proof fn lemma_stable(
    x: Option<StableTypeNamesView>,
    rest1: Seq<u8>,
    y: Option<StableTypeNamesView>,
    rest2: Seq<u8>,
)
    requires
        stable_fits(x),
        stable_fits(y),
        encoding::stable_encoding(x) + rest1 == encoding::stable_encoding(y) + rest2,
    ensures
        x == y,
        rest1 == rest2,
{
    let none = Seq::<u8>::empty();
    let out = |d: StableTypeNamesView, rest: Seq<u8>| encoding::framed_text(encoding::TAG_OUTPUT, d.output) + rest;
    let tail = |d: StableTypeNamesView, rest: Seq<u8>|
        encoding::inputs_encoding(d.inputs) + (inputs_end() + out(d, rest));
    if x is Some {
        let d = x->0;
        assert(encoding::stable_encoding(x) + rest1 =~= encoding::framed_text(encoding::TAG_TASK, d.task) + tail(d, rest1));
    }
    if y is Some {
        let d = y->0;
        assert(encoding::stable_encoding(y) + rest2 =~= encoding::framed_text(encoding::TAG_TASK, d.task) + tail(d, rest2));
    }
    match (x, y) {
        (Some(c), Some(d)) => {
            lemma_text(encoding::TAG_TASK, c.task, tail(c, rest1), encoding::TAG_TASK, d.task, tail(d, rest2));
            lemma_inputs(c.inputs, out(c, rest1), d.inputs, out(d, rest2));
            lemma_text(encoding::TAG_OUTPUT, c.output, rest1, encoding::TAG_OUTPUT, d.output, rest2);
        },
        (Some(c), None) => {
            bytes::law_framing_is_unambiguous(
                encoding::TAG_TASK,
                encode_utf8(c.task),
                tail(c, rest1),
                encoding::TAG_UNNAMED,
                none,
                rest2,
            );
        },
        (None, Some(d)) => {
            bytes::law_framing_is_unambiguous(
                encoding::TAG_UNNAMED,
                none,
                rest1,
                encoding::TAG_TASK,
                encode_utf8(d.task),
                tail(d, rest2),
            );
        },
        (None, None) => {
            bytes::law_framing_is_unambiguous(encoding::TAG_UNNAMED, none, rest1, encoding::TAG_UNNAMED, none, rest2);
        },
    }
}

proof fn lemma_carried(x: Option<Seq<char>>, rest1: Seq<u8>, y: Option<Seq<char>>, rest2: Seq<u8>)
    requires
        x matches Some(s) ==> fits(s),
        y matches Some(s) ==> fits(s),
        carried_bytes(x) + rest1 == carried_bytes(y) + rest2,
    ensures
        x == y,
        rest1 == rest2,
{
    let tag1 = if x is Some { encoding::TAG_CARRIED } else { encoding::TAG_CARRIES_UNNAMED };
    let tag2 = if y is Some { encoding::TAG_CARRIED } else { encoding::TAG_CARRIES_UNNAMED };
    let b1 = if x is Some { encode_utf8(x->0) } else { Seq::<u8>::empty() };
    let b2 = if y is Some { encode_utf8(y->0) } else { Seq::<u8>::empty() };
    bytes::law_framing_is_unambiguous(tag1, b1, rest1, tag2, b2, rest2);
    if x is Some && y is Some {
        text::lemma_encoding_injective(x->0, y->0);
    }
}

/// The bytes that follow the producer of a data edge are not those that follow the
/// producer of an ordering edge.
proof fn lemma_kinds_differ(position: nat, carried: Option<Seq<char>>, rest1: Seq<u8>, rest2: Seq<u8>)
    requires
        position < AMBIGUOUS_POSITION,
        at_piece(rest2),
    ensures
        data_end(position, carried) + rest1 != seq![encoding::KIND_ORDERING] + rest2,
{
    let a = data_end(position, carried) + rest1;
    let b = seq![encoding::KIND_ORDERING] + rest2;
    reveal_with_fuel(bytes::le, 3);
    bytes::lemma_le_len(position, 8);
    let number = bytes::le(position, 8);
    assert(number[0] == (position % 256) as u8);
    assert(number[1] == (position / 256 % 256) as u8) by {
        let rest = bytes::le(position / 256, 7);
        assert(number == seq![(position % 256) as u8] + rest);
        assert(rest[0] == (position / 256 % 256) as u8);
        assert(number[1] == rest[0]);
    }
    assert(a[0] == number[0] && a[1] == number[1]);
    if a == b {
        assert(b.len() >= 9);
        assert(b[0] == 0x4f);
        assert(b[1] == rest2[0]);
        assert(position % 256 == 0x4f);
        assert(position / 256 < 256);
        assert(position / 256 >= 0x63);
        assert(position >= 0x634f);
    }
}

spec fn first_tag(piece: Piece) -> u8 {
    if piece is Node {
        encoding::TAG_NODE
    } else {
        encoding::TAG_CONSUMER
    }
}

spec fn first_text(piece: Piece) -> Seq<char> {
    match piece {
        Piece::Node { name, stable, rule } => name,
        Piece::Data { consumer, producer, position, carried } => consumer,
        Piece::After { consumer, producer } => consumer,
    }
}

spec fn after_first(piece: Piece, rest: Seq<u8>) -> Seq<u8> {
    match piece {
        Piece::Node { name, stable, rule } => encoding::stable_encoding(stable) + (rule_bytes(rule) + rest),
        Piece::Data { consumer, producer, position, carried } => encoding::framed_text(
            encoding::TAG_PRODUCER,
            producer,
        ) + (data_end(position, carried) + rest),
        Piece::After { consumer, producer } => encoding::framed_text(encoding::TAG_PRODUCER, producer) + (seq![
            encoding::KIND_ORDERING,
        ] + rest),
    }
}

proof fn lemma_four(a: Seq<u8>, b: Seq<u8>, c: Seq<u8>, d: Seq<u8>)
    ensures
        (a + (b + c)) + d == a + (b + (c + d)),
{
    assert((a + (b + c)) + d =~= a + (b + (c + d)));
}

proof fn lemma_begins_with_text(piece: Piece, rest: Seq<u8>)
    ensures
        piece_bytes(piece) + rest == encoding::framed_text(first_tag(piece), first_text(piece)) + after_first(piece, rest),
{
    let head = encoding::framed_text(first_tag(piece), first_text(piece));
    match piece {
        Piece::Node { name, stable, rule } => {
            lemma_four(head, encoding::stable_encoding(stable), rule_bytes(rule), rest);
        },
        Piece::Data { consumer, producer, position, carried } => {
            let second = encoding::framed_text(encoding::TAG_PRODUCER, producer);
            lemma_four(head, second, data_end(position, carried), rest);
        },
        Piece::After { consumer, producer } => {
            let second = encoding::framed_text(encoding::TAG_PRODUCER, producer);
            lemma_four(head, second, seq![encoding::KIND_ORDERING], rest);
        },
    }
}

proof fn lemma_rule(x: TriggerRule, rest1: Seq<u8>, y: TriggerRule, rest2: Seq<u8>)
    requires
        rule_bytes(x) + rest1 == rule_bytes(y) + rest2,
    ensures
        x == y,
        rest1 == rest2,
{
    let c1 = seq![encoding::trigger_rule_code(x)];
    let c2 = seq![encoding::trigger_rule_code(y)];
    bytes::law_framing_is_unambiguous(encoding::TAG_RULE, c1, rest1, encoding::TAG_RULE, c2, rest2);
    assert(c1[0] == c2[0]);
}

proof fn lemma_data_end(
    position1: nat,
    carried1: Option<Seq<char>>,
    rest1: Seq<u8>,
    position2: nat,
    carried2: Option<Seq<char>>,
    rest2: Seq<u8>,
)
    requires
        position1 < AMBIGUOUS_POSITION,
        position2 < AMBIGUOUS_POSITION,
        carried1 matches Some(s) ==> fits(s),
        carried2 matches Some(s) ==> fits(s),
        data_end(position1, carried1) + rest1 == data_end(position2, carried2) + rest2,
    ensures
        position1 == position2,
        carried1 == carried2,
        rest1 == rest2,
{
    let kind = seq![encoding::KIND_DATA];
    let t1 = carried_bytes(carried1) + rest1;
    let t2 = carried_bytes(carried2) + rest2;
    lemma_four(bytes::le(position1, 8), kind, carried_bytes(carried1), rest1);
    lemma_four(bytes::le(position2, 8), kind, carried_bytes(carried2), rest2);
    bytes::lemma_bounds();
    lemma_number(position1, kind + t1, position2, kind + t2, 8);
    lemma_fixed(kind, t1, kind, t2);
    lemma_carried(carried1, rest1, carried2, rest2);
}

proof fn lemma_first_piece(x: Piece, rest1: Seq<u8>, y: Piece, rest2: Seq<u8>)
    requires
        valid(x),
        valid(y),
        at_piece(rest1),
        at_piece(rest2),
        piece_bytes(x) + rest1 == piece_bytes(y) + rest2,
    ensures
        x == y,
        rest1 == rest2,
{
    lemma_begins_with_text(x, rest1);
    lemma_begins_with_text(y, rest2);
    let a = after_first(x, rest1);
    let b = after_first(y, rest2);
    lemma_text(first_tag(x), first_text(x), a, first_tag(y), first_text(y), b);
    let p = encoding::TAG_PRODUCER;
    let kind = seq![encoding::KIND_ORDERING];
    match x {
        Piece::Node { name, stable, rule } => {
            assert(y is Node);
            lemma_stable(stable, rule_bytes(rule) + rest1, y->stable, rule_bytes(y->rule) + rest2);
            lemma_rule(rule, rest1, y->rule, rest2);
        },
        Piece::Data { consumer, producer, position, carried } => {
            let end1 = data_end(position, carried) + rest1;
            match y {
                Piece::Node { name, stable, rule } => {},
                Piece::Data { consumer: c2, producer: p2, position: o2, carried: y2 } => {
                    lemma_text(p, producer, end1, p, p2, data_end(o2, y2) + rest2);
                    lemma_data_end(position, carried, rest1, o2, y2, rest2);
                },
                Piece::After { consumer: c2, producer: p2 } => {
                    lemma_text(p, producer, end1, p, p2, kind + rest2);
                    lemma_kinds_differ(position, carried, rest1, rest2);
                },
            }
        },
        Piece::After { consumer, producer } => {
            match y {
                Piece::Node { name, stable, rule } => {},
                Piece::Data { consumer: c2, producer: p2, position: o2, carried: y2 } => {
                    lemma_text(p, producer, kind + rest1, p, p2, data_end(o2, y2) + rest2);
                    lemma_kinds_differ(o2, y2, rest2, rest1);
                },
                Piece::After { consumer: c2, producer: p2 } => {
                    lemma_text(p, producer, kind + rest1, p, p2, kind + rest2);
                    lemma_fixed(kind, rest1, kind, rest2);
                },
            }
        },
    }
}

proof fn lemma_joined_begins(pieces: Seq<Piece>)
    ensures
        at_piece(joined(pieces)),
        pieces.len() > 0 ==> joined(pieces).len() > 0,
{
    if pieces.len() > 0 {
        assert(joined(pieces)[0] == piece_bytes(pieces[0])[0]);
    }
}

/// Pieces are read back from what they are joined into.
proof fn lemma_pieces(x: Seq<Piece>, y: Seq<Piece>)
    requires
        forall|k: int| 0 <= k < x.len() ==> valid(#[trigger] x[k]),
        forall|k: int| 0 <= k < y.len() ==> valid(#[trigger] y[k]),
        joined(x) == joined(y),
    ensures
        x == y,
    decreases x.len(),
{
    lemma_joined_begins(x);
    lemma_joined_begins(y);
    if x.len() > 0 && y.len() > 0 {
        let fx = x.drop_first();
        let fy = y.drop_first();
        lemma_joined_begins(fx);
        lemma_joined_begins(fy);
        lemma_first_piece(x[0], joined(fx), y[0], joined(fy));
        assert forall|k: int| 0 <= k < fx.len() implies valid(#[trigger] fx[k]) by {
            assert(valid(x[k + 1]));
        }
        assert forall|k: int| 0 <= k < fy.len() implies valid(#[trigger] fy[k]) by {
            assert(valid(y[k + 1]));
        }
        lemma_pieces(fx, fy);
        assert(x =~= seq![x[0]] + fx);
        assert(y =~= seq![y[0]] + fy);
    } else {
        assert(x =~= y);
    }
}

proof fn lemma_joined_add(x: Seq<Piece>, y: Seq<Piece>)
    ensures
        joined(x + y) == joined(x) + joined(y),
    decreases x.len(),
{
    if x.len() == 0 {
        assert(x + y =~= y);
        assert(joined(x) + joined(y) =~= joined(y));
    } else {
        lemma_joined_add(x.drop_first(), y);
        assert((x + y).drop_first() =~= x.drop_first() + y);
        assert((x + y)[0] == x[0]);
        assert(piece_bytes(x[0]) + (joined(x.drop_first()) + joined(y)) =~= (piece_bytes(x[0]) + joined(
            x.drop_first(),
        )) + joined(y));
    }
}

proof fn lemma_joined_push(x: Seq<Piece>, piece: Piece)
    ensures
        joined(x.push(piece)) == joined(x) + piece_bytes(piece),
{
    let one = seq![piece];
    lemma_joined_add(x, one);
    assert(x + one =~= x.push(piece));
    assert(one.drop_first() =~= Seq::<Piece>::empty());
    assert(joined(one.drop_first()) =~= Seq::<u8>::empty());
    assert(joined(one) == piece_bytes(one[0]) + joined(one.drop_first()));
    assert(joined(one) =~= piece_bytes(piece));
}

spec fn node_piece(node: NodeView) -> Piece {
    Piece::Node { name: node.name, stable: node.declaration.stable_names, rule: node.declaration.trigger_rule }
}

spec fn carried_by(p: PipelineView, id: NodeId) -> Option<Seq<char>> {
    if p.has_node(id) && p.nodes[p.index_of(id)].declaration.stable_names is Some {
        Some(p.nodes[p.index_of(id)].declaration.stable_names->0.output)
    } else {
        None
    }
}

spec fn data_piece(p: PipelineView, consumer: Seq<char>, edge: DataEdge) -> Piece {
    Piece::Data {
        consumer,
        producer: checks::producer_text(p, edge.upstream),
        position: edge.position as nat,
        carried: carried_by(p, edge.upstream),
    }
}

spec fn node_pieces(p: PipelineView, k: int) -> Seq<Piece>
    decreases k,
{
    if k <= 0 {
        Seq::empty()
    } else {
        node_pieces(p, k - 1).push(node_piece(p.nodes[k - 1]))
    }
}

spec fn edge_pieces(p: PipelineView, consumer: Seq<char>, edges: Seq<DataEdge>) -> Seq<Piece>
    decreases edges.len(),
{
    if edges.len() == 0 {
        Seq::empty()
    } else {
        edge_pieces(p, consumer, edges.drop_last()).push(data_piece(p, consumer, edges.last()))
    }
}

spec fn data_pieces(p: PipelineView, k: int) -> Seq<Piece>
    decreases k,
{
    if k <= 0 {
        Seq::empty()
    } else {
        data_pieces(p, k - 1) + edge_pieces(p, p.nodes[k - 1].name, p.nodes[k - 1].edges)
    }
}

spec fn after_pieces(consumer: Seq<char>, producers: Seq<Seq<char>>, k: int) -> Seq<Piece>
    decreases k,
{
    if k <= 0 {
        Seq::empty()
    } else {
        after_pieces(consumer, producers, k - 1).push(Piece::After { consumer, producer: producers[k - 1] })
    }
}

spec fn ordering_pieces(p: PipelineView, k: int) -> Seq<Piece>
    decreases k,
{
    if k <= 0 {
        Seq::empty()
    } else {
        let node = p.nodes[k - 1];
        let producers = encoding::ordered_after(p, node.declaration.ordering);
        ordering_pieces(p, k - 1) + after_pieces(node.name, producers, producers.len() as int)
    }
}

spec fn pieces(p: PipelineView) -> Seq<Piece> {
    let n = p.nodes.len() as int;
    node_pieces(p, n) + data_pieces(p, n) + ordering_pieces(p, n)
}

proof fn lemma_node_pieces(p: PipelineView, k: int)
    requires
        0 <= k <= p.nodes.len(),
    ensures
        joined(node_pieces(p, k)) == encoding::node_shapes(p, k),
        node_pieces(p, k).len() == k,
        forall|i: int| 0 <= i < k ==> #[trigger] node_pieces(p, k)[i] == node_piece(p.nodes[i]),
    decreases k,
{
    if k > 0 {
        lemma_node_pieces(p, k - 1);
        let node = p.nodes[k - 1];
        lemma_joined_push(node_pieces(p, k - 1), node_piece(node));
        assert(piece_bytes(node_piece(node)) =~= encoding::node_shape(node));
    }
}

proof fn lemma_edge_pieces(p: PipelineView, consumer: Seq<char>, edges: Seq<DataEdge>)
    ensures
        joined(edge_pieces(p, consumer, edges)) == encoding::data_edges_of(p, consumer, edges),
        edge_pieces(p, consumer, edges).len() == edges.len(),
        forall|e: int|
            0 <= e < edges.len() ==> #[trigger] edge_pieces(p, consumer, edges)[e] == data_piece(p, consumer, edges[e]),
    decreases edges.len(),
{
    if edges.len() > 0 {
        let front = edges.drop_last();
        lemma_edge_pieces(p, consumer, front);
        let piece = data_piece(p, consumer, edges.last());
        lemma_joined_push(edge_pieces(p, consumer, front), piece);
        let edge = edges.last();
        assert(carried_bytes(carried_by(p, edge.upstream)) == encoding::carried_encoding(p, edge.upstream));
        assert(piece_bytes(piece) =~= encoding::data_edge_shape(p, consumer, edge));
    }
}

/// Whether a piece is that of edge `e` of node `i`.
spec fn is_edge(p: PipelineView, piece: Piece, i: int, e: int) -> bool {
    piece == data_piece(p, p.nodes[i].name, p.nodes[i].edges[e])
}

proof fn lemma_data_pieces(p: PipelineView, k: int)
    requires
        0 <= k <= p.nodes.len(),
    ensures
        joined(data_pieces(p, k)) == encoding::data_edge_shapes(p, k),
        forall|x: Piece| #[trigger]
            data_pieces(p, k).contains(x) ==> exists|i: int, e: int|
                0 <= i < k && 0 <= e < p.nodes[i].edges.len() && #[trigger] is_edge(p, x, i, e),
        forall|i: int, e: int|
            0 <= i < k && 0 <= e < p.nodes[i].edges.len() ==> data_pieces(p, k).contains(
                #[trigger] data_piece(p, p.nodes[i].name, p.nodes[i].edges[e]),
            ),
    decreases k,
{
    if k > 0 {
        lemma_data_pieces(p, k - 1);
        let node = p.nodes[k - 1];
        let before = data_pieces(p, k - 1);
        let more = edge_pieces(p, node.name, node.edges);
        let all = data_pieces(p, k);
        lemma_edge_pieces(p, node.name, node.edges);
        lemma_joined_add(before, more);
        assert forall|x: Piece| #[trigger] all.contains(x) implies exists|i: int, e: int|
            0 <= i < k && 0 <= e < p.nodes[i].edges.len() && #[trigger] is_edge(p, x, i, e) by {
            let m = choose|m: int| 0 <= m < all.len() && all[m] == x;
            if m < before.len() {
                assert(before[m] == x);
                assert(before.contains(x));
                let (i, e) = choose|i: int, e: int|
                    0 <= i < k - 1 && 0 <= e < p.nodes[i].edges.len() && #[trigger] is_edge(p, x, i, e);
                assert(is_edge(p, x, i, e));
            } else {
                let e = m - before.len();
                assert(more[e] == x);
                assert(is_edge(p, x, k - 1, e));
            }
        }
        assert forall|i: int, e: int| 0 <= i < k && 0 <= e < p.nodes[i].edges.len() implies all.contains(
            #[trigger] data_piece(p, p.nodes[i].name, p.nodes[i].edges[e]),
        ) by {
            let x = data_piece(p, p.nodes[i].name, p.nodes[i].edges[e]);
            if i < k - 1 {
                assert(before.contains(x));
                let m = choose|m: int| 0 <= m < before.len() && before[m] == x;
                assert(all[m] == x);
            } else {
                assert(more[e] == x);
                assert(all[before.len() + e] == x);
            }
        }
    }
}

proof fn lemma_ordered_after(p: PipelineView, edges: Seq<OrderingEdge>) -> (list: Seq<Seq<char>>)
    ensures
        list == encoding::ordered_after(p, edges),
        forall|name: Seq<char>| #[trigger] list.contains(name) <==> encoding::is_ordered_after(p, edges, name),
    decreases edges.len(),
{
    let list = lemma_ordered_list(p, edges);
    names::lemma_listing_unique(list, |name: Seq<char>| encoding::is_ordered_after(p, edges, name));
    list
}

proof fn lemma_ordered_list(p: PipelineView, edges: Seq<OrderingEdge>) -> (list: Seq<Seq<char>>)
    ensures
        names::sorted(list),
        forall|name: Seq<char>| #[trigger] list.contains(name) <==> encoding::is_ordered_after(p, edges, name),
    decreases edges.len(),
{
    if edges.len() == 0 {
        Seq::empty()
    } else {
        let front = edges.drop_last();
        let before = lemma_ordered_list(p, front);
        let last = checks::producer_text(p, edges.last().upstream);
        let list = names::lemma_sorted_insert(before, last);
        assert forall|name: Seq<char>| #[trigger] list.contains(name) <==> encoding::is_ordered_after(p, edges, name) by {
            if encoding::is_ordered_after(p, front, name) {
                let k = choose|k: int|
                    0 <= k < front.len() && checks::producer_text(p, (#[trigger] front[k]).upstream) == name;
                assert(checks::producer_text(p, edges[k].upstream) == name);
            }
            if name == last {
                assert(checks::producer_text(p, edges[edges.len() - 1].upstream) == name);
            }
            if encoding::is_ordered_after(p, edges, name) && name != last {
                let k = choose|k: int|
                    0 <= k < edges.len() && checks::producer_text(p, (#[trigger] edges[k]).upstream) == name;
                assert(checks::producer_text(p, front[k].upstream) == name);
            }
        }
        list
    }
}

proof fn lemma_after_pieces(consumer: Seq<char>, producers: Seq<Seq<char>>, k: int)
    requires
        0 <= k <= producers.len(),
    ensures
        joined(after_pieces(consumer, producers, k)) == encoding::ordering_of(consumer, producers, k),
        after_pieces(consumer, producers, k).len() == k,
        forall|e: int|
            0 <= e < k ==> #[trigger] after_pieces(consumer, producers, k)[e] == (Piece::After {
                consumer,
                producer: producers[e],
            }),
    decreases k,
{
    if k > 0 {
        lemma_after_pieces(consumer, producers, k - 1);
        let piece = Piece::After { consumer, producer: producers[k - 1] };
        let before = encoding::ordering_of(consumer, producers, k - 1);
        lemma_joined_push(after_pieces(consumer, producers, k - 1), piece);
        assert(before + piece_bytes(piece) =~= encoding::ordering_of(consumer, producers, k));
    }
}

/// Whether a piece says that node `i` is ordered after the producer so named.
spec fn is_order(p: PipelineView, piece: Piece, i: int, producer: Seq<char>) -> bool {
    piece == (Piece::After { consumer: p.nodes[i].name, producer })
}

proof fn lemma_ordering_pieces(p: PipelineView, k: int)
    requires
        0 <= k <= p.nodes.len(),
    ensures
        joined(ordering_pieces(p, k)) == encoding::ordering_shapes(p, k),
        forall|x: Piece| #[trigger]
            ordering_pieces(p, k).contains(x) ==> exists|i: int, producer: Seq<char>|
                0 <= i < k && encoding::is_ordered_after(p, p.nodes[i].declaration.ordering, producer)
                    && #[trigger] is_order(p, x, i, producer),
        forall|i: int, producer: Seq<char>|
            0 <= i < k && #[trigger] encoding::is_ordered_after(p, p.nodes[i].declaration.ordering, producer)
                ==> ordering_pieces(p, k).contains(Piece::After { consumer: p.nodes[i].name, producer }),
    decreases k,
{
    if k > 0 {
        lemma_ordering_pieces(p, k - 1);
        let node = p.nodes[k - 1];
        let producers = lemma_ordered_after(p, node.declaration.ordering);
        let before = ordering_pieces(p, k - 1);
        let more = after_pieces(node.name, producers, producers.len() as int);
        let all = ordering_pieces(p, k);
        lemma_after_pieces(node.name, producers, producers.len() as int);
        lemma_joined_add(before, more);
        assert forall|x: Piece| #[trigger] all.contains(x) implies exists|i: int, producer: Seq<char>|
            0 <= i < k && encoding::is_ordered_after(p, p.nodes[i].declaration.ordering, producer)
                && #[trigger] is_order(p, x, i, producer) by {
            let m = choose|m: int| 0 <= m < all.len() && all[m] == x;
            if m < before.len() {
                assert(before[m] == x);
                assert(before.contains(x));
                let (i, producer) = choose|i: int, producer: Seq<char>|
                    0 <= i < k - 1 && encoding::is_ordered_after(p, p.nodes[i].declaration.ordering, producer)
                        && #[trigger] is_order(p, x, i, producer);
                assert(is_order(p, x, i, producer));
            } else {
                let e = m - before.len();
                assert(more[e] == x);
                assert(producers.contains(producers[e]));
                assert(is_order(p, x, k - 1, producers[e]));
            }
        }
        assert forall|i: int, producer: Seq<char>|
            0 <= i < k && #[trigger] encoding::is_ordered_after(
                p,
                p.nodes[i].declaration.ordering,
                producer,
            ) implies all.contains(Piece::After { consumer: p.nodes[i].name, producer }) by {
            let x = Piece::After { consumer: p.nodes[i].name, producer };
            if i < k - 1 {
                assert(before.contains(x));
                let m = choose|m: int| 0 <= m < before.len() && before[m] == x;
                assert(all[m] == x);
            } else {
                assert(producers.contains(producer));
                let e = choose|e: int| 0 <= e < producers.len() && producers[e] == producer;
                assert(more[e] == x);
                assert(all[before.len() + e] == x);
            }
        }
    }
}

/// Whether every node that an edge comes from is there.
pub open spec fn closed(p: PipelineView) -> bool {
    &&& forall|i: int, e: int|
        #![trigger p.nodes[i].edges[e]]
        0 <= i < p.nodes.len() && 0 <= e < p.nodes[i].edges.len() ==> p.has_node(p.nodes[i].edges[e].upstream)
    &&& forall|i: int, e: int|
        #![trigger p.nodes[i].declaration.ordering[e]]
        0 <= i < p.nodes.len() && 0 <= e < p.nodes[i].declaration.ordering.len() ==> p.has_node(
            p.nodes[i].declaration.ordering[e].upstream,
        )
}

/// Whether every length and every position fits the field that it is encoded in, the
/// positions short of where edges of the two kinds can be confused.
pub open spec fn encodable(p: PipelineView) -> bool {
    &&& forall|i: int|
        0 <= i < p.nodes.len() ==> fits((#[trigger] p.nodes[i]).name) && stable_fits(p.nodes[i].declaration.stable_names)
            && p.nodes[i].edges.len() <= AMBIGUOUS_POSITION
}

/// The identity of a node that is there is that of its name.
proof fn lemma_producer(p: PipelineView, id: NodeId)
    requires
        p.wf(),
        encodable(p),
        p.has_node(id),
    ensures
        id == crate::handle::node_id(checks::producer_text(p, id)),
        fits(checks::producer_text(p, id)),
        carried_by(p, id) matches Some(s) ==> fits(s),
{
    flow::lemma_resolves(p, id);
    let i = p.index_of(id);
    assert(p.nodes[i].wf());
    assert(fits(p.nodes[i].name));
}

proof fn lemma_pieces_are_valid(p: PipelineView)
    requires
        p.wf(),
        encodable(p),
        closed(p),
    ensures
        joined(pieces(p)) == encoding::structural_encoding(p),
        forall|k: int| 0 <= k < pieces(p).len() ==> valid(#[trigger] pieces(p)[k]),
        forall|k: int| p.nodes.len() <= k < pieces(p).len() ==> !(#[trigger] pieces(p)[k] is Node),
{
    let n = p.nodes.len() as int;
    let a = node_pieces(p, n);
    let b = data_pieces(p, n);
    let c = ordering_pieces(p, n);
    lemma_node_pieces(p, n);
    lemma_data_pieces(p, n);
    lemma_ordering_pieces(p, n);
    lemma_joined_add(a, b);
    lemma_joined_add(a + b, c);
    assert forall|k: int| 0 <= k < pieces(p).len() implies valid(#[trigger] pieces(p)[k]) && (k >= n ==> !(pieces(
        p,
    )[k] is Node)) by {
        let x = pieces(p)[k];
        if k < n {
            assert(a[k] == node_piece(p.nodes[k]));
            assert(x == a[k]);
            assert(fits(p.nodes[k].name));
        } else if k < n + b.len() {
            assert(x == b[k - n]);
            assert(b.contains(x));
            let (i, e) = choose|i: int, e: int|
                0 <= i < n && 0 <= e < p.nodes[i].edges.len() && #[trigger] is_edge(p, x, i, e);
            let edge = p.nodes[i].edges[e];
            assert(p.has_node(edge.upstream));
            lemma_producer(p, edge.upstream);
            assert(p.nodes[i].wf());
            assert(edge.position == e);
            assert(fits(p.nodes[i].name));
        } else {
            assert(x == c[k - n - b.len()]);
            assert(c.contains(x));
            let (i, producer) = choose|i: int, producer: Seq<char>|
                0 <= i < n && encoding::is_ordered_after(p, p.nodes[i].declaration.ordering, producer)
                    && #[trigger] is_order(p, x, i, producer);
            let ordering = p.nodes[i].declaration.ordering;
            let e = choose|e: int|
                0 <= e < ordering.len() && checks::producer_text(p, (#[trigger] ordering[e]).upstream) == producer;
            assert(p.has_node(p.nodes[i].declaration.ordering[e].upstream));
            lemma_producer(p, ordering[e].upstream);
            assert(fits(p.nodes[i].name));
        }
    }
}

/// The pieces of a pipeline are those of its nodes and edges.
proof fn lemma_contained(p: PipelineView, x: Piece)
    ensures
        x is Data && pieces(p).contains(x) ==> data_pieces(p, p.nodes.len() as int).contains(x),
        x is After && pieces(p).contains(x) ==> ordering_pieces(p, p.nodes.len() as int).contains(x),
        data_pieces(p, p.nodes.len() as int).contains(x) ==> pieces(p).contains(x),
        ordering_pieces(p, p.nodes.len() as int).contains(x) ==> pieces(p).contains(x),
{
    let n = p.nodes.len() as int;
    let a = node_pieces(p, n);
    let b = data_pieces(p, n);
    let c = ordering_pieces(p, n);
    let all = pieces(p);
    lemma_node_pieces(p, n);
    lemma_data_pieces(p, n);
    lemma_ordering_pieces(p, n);
    if all.contains(x) {
        let k = choose|k: int| 0 <= k < all.len() && all[k] == x;
        if k < n {
            assert(a[k] == x);
            assert(a[k] == node_piece(p.nodes[k]));
        } else if k < n + b.len() {
            assert(b[k - n] == x);
            assert(b.contains(x));
            let (i, e) = choose|i: int, e: int|
                0 <= i < n && 0 <= e < p.nodes[i].edges.len() && #[trigger] is_edge(p, x, i, e);
        } else {
            assert(c[k - n - b.len()] == x);
            assert(c.contains(x));
            let (i, producer) = choose|i: int, producer: Seq<char>|
                0 <= i < n && encoding::is_ordered_after(p, p.nodes[i].declaration.ordering, producer)
                    && #[trigger] is_order(p, x, i, producer);
        }
    }
    if b.contains(x) {
        let k = choose|k: int| 0 <= k < b.len() && b[k] == x;
        assert(all[n + k] == x);
    }
    if c.contains(x) {
        let k = choose|k: int| 0 <= k < c.len() && c[k] == x;
        assert(all[n + b.len() + k] == x);
    }
}

proof fn lemma_one_name(p: PipelineView, i: int, j: int)
    requires
        p.wf(),
        0 <= i < p.nodes.len(),
        0 <= j < p.nodes.len(),
        p.nodes[i].name == p.nodes[j].name,
    ensures
        i == j,
{
    if i < j {
        text::lemma_name_lt_asymmetric(p.nodes[i].name, p.nodes[j].name);
    } else if j < i {
        text::lemma_name_lt_asymmetric(p.nodes[j].name, p.nodes[i].name);
    }
}

/// Whether two pipelines can be told apart by their pieces.
spec fn alike(p: PipelineView, q: PipelineView) -> bool {
    &&& p.wf() && q.wf()
    &&& encodable(p) && encodable(q)
    &&& closed(p) && closed(q)
    &&& pieces(p) == pieces(q)
}

proof fn lemma_no_more_nodes(p: PipelineView, q: PipelineView)
    requires
        alike(p, q),
    ensures
        q.nodes.len() <= p.nodes.len(),
{
    let n = p.nodes.len() as int;
    if n < q.nodes.len() {
        lemma_pieces_are_valid(p);
        lemma_node_pieces(q, q.nodes.len() as int);
        assert(pieces(q)[n] == node_pieces(q, q.nodes.len() as int)[n]);
        assert(pieces(q)[n] == node_piece(q.nodes[n]));
        assert(pieces(p)[n] is Node);
    }
}

proof fn lemma_same_node(p: PipelineView, q: PipelineView, i: int)
    requires
        alike(p, q),
        p.nodes.len() == q.nodes.len(),
        0 <= i < p.nodes.len(),
    ensures
        node_piece(p.nodes[i]) == node_piece(q.nodes[i]),
        p.nodes[i].name == q.nodes[i].name,
        p.nodes[i].id == q.nodes[i].id,
{
    let n = p.nodes.len() as int;
    lemma_node_pieces(p, n);
    lemma_node_pieces(q, n);
    assert(pieces(p)[i] == node_pieces(p, n)[i]);
    assert(pieces(q)[i] == node_pieces(q, n)[i]);
    assert(p.nodes[i].wf() && q.nodes[i].wf());
}

proof fn lemma_edge_is_there(p: PipelineView, q: PipelineView, i: int, e: int)
    requires
        alike(p, q),
        p.nodes.len() == q.nodes.len(),
        0 <= i < p.nodes.len(),
        0 <= e < p.nodes[i].edges.len(),
    ensures
        e < q.nodes[i].edges.len(),
        p.nodes[i].edges[e].upstream == q.nodes[i].edges[e].upstream,
        p.nodes[i].edges[e].position == q.nodes[i].edges[e].position,
{
    let n = p.nodes.len() as int;
    let x = data_piece(p, p.nodes[i].name, p.nodes[i].edges[e]);
    lemma_data_pieces(p, n);
    lemma_data_pieces(q, n);
    lemma_contained(p, x);
    lemma_contained(q, x);
    assert(data_pieces(q, n).contains(x));
    let (j, f) = choose|j: int, f: int|
        0 <= j < n && 0 <= f < q.nodes[j].edges.len() && #[trigger] is_edge(q, x, j, f);
    lemma_same_node(p, q, i);
    lemma_one_name(q, i, j);
    assert(p.nodes[i].wf() && q.nodes[j].wf());
    assert(p.nodes[i].edges[e].position == e);
    assert(q.nodes[j].edges[f].position == f);
    assert(p.has_node(p.nodes[i].edges[e].upstream));
    assert(q.has_node(q.nodes[j].edges[f].upstream));
    lemma_producer(p, p.nodes[i].edges[e].upstream);
    lemma_producer(q, q.nodes[j].edges[f].upstream);
}

proof fn lemma_order_is_there(p: PipelineView, q: PipelineView, i: int, id: NodeId)
    requires
        alike(p, q),
        p.nodes.len() == q.nodes.len(),
        0 <= i < p.nodes.len(),
        laws::ordered_behind(p.nodes[i], id),
    ensures
        laws::ordered_behind(q.nodes[i], id),
{
    let n = p.nodes.len() as int;
    let ordering = p.nodes[i].declaration.ordering;
    let e = choose|e: int| 0 <= e < ordering.len() && (#[trigger] ordering[e]).upstream == id;
    let producer = checks::producer_text(p, id);
    assert(checks::producer_text(p, ordering[e].upstream) == producer);
    assert(encoding::is_ordered_after(p, p.nodes[i].declaration.ordering, producer));
    let x = Piece::After { consumer: p.nodes[i].name, producer };
    lemma_ordering_pieces(p, n);
    lemma_ordering_pieces(q, n);
    lemma_contained(p, x);
    lemma_contained(q, x);
    assert(ordering_pieces(q, n).contains(x));
    let (j, other) = choose|j: int, other: Seq<char>|
        0 <= j < n && encoding::is_ordered_after(q, q.nodes[j].declaration.ordering, other)
            && #[trigger] is_order(q, x, j, other);
    lemma_same_node(p, q, i);
    lemma_one_name(q, i, j);
    let there = q.nodes[j].declaration.ordering;
    let f = choose|f: int| 0 <= f < there.len() && checks::producer_text(q, (#[trigger] there[f]).upstream) == other;
    assert(p.has_node(p.nodes[i].declaration.ordering[e].upstream));
    assert(q.has_node(q.nodes[j].declaration.ordering[f].upstream));
    lemma_producer(p, id);
    lemma_producer(q, there[f].upstream);
    assert(q.nodes[i].declaration.ordering[f].upstream == id);
}

/// The structural encoding tells the structure: two pipelines whose edges all come from
/// nodes that are there, and which are encoded alike, have the same nodes by name, with the
/// same stable names and trigger rules, the same data edges by consumer, position and
/// producer, and so the same carried types, and the same ordering. So does every change of
/// the structure change what the structural fingerprint is taken of.
pub proof fn law_structural_encoding_tells_the_structure(p: PipelineView, q: PipelineView)
    requires
        p.wf(),
        q.wf(),
        encodable(p),
        encodable(q),
        closed(p),
        closed(q),
        encoding::structural_encoding(p) == encoding::structural_encoding(q),
    ensures
        laws::same_structure(p, q),
{
    lemma_pieces_are_valid(p);
    lemma_pieces_are_valid(q);
    lemma_pieces(pieces(p), pieces(q));
    lemma_no_more_nodes(p, q);
    lemma_no_more_nodes(q, p);
    let n = p.nodes.len() as int;
    assert forall|i: int| 0 <= i < n implies {
        let a = #[trigger] p.nodes[i];
        let b = q.nodes[i];
        &&& a.name == b.name
        &&& a.id == b.id
        &&& a.declaration.stable_names == b.declaration.stable_names
        &&& a.declaration.trigger_rule == b.declaration.trigger_rule
        &&& a.edges.len() == b.edges.len()
    } by {
        lemma_same_node(p, q, i);
        let x = p.nodes[i].edges.len() as int;
        let y = q.nodes[i].edges.len() as int;
        if x > y {
            lemma_edge_is_there(p, q, i, y);
        } else if y > x {
            lemma_edge_is_there(q, p, i, x);
        }
    }
    assert forall|i: int, e: int|
        #![trigger p.nodes[i].edges[e]]
        0 <= i < n && 0 <= e < p.nodes[i].edges.len() implies p.nodes[i].edges[e].upstream
        == q.nodes[i].edges[e].upstream && p.nodes[i].edges[e].position == q.nodes[i].edges[e].position by {
        lemma_edge_is_there(p, q, i, e);
    }
    assert forall|i: int, id: NodeId|
        #![trigger laws::ordered_behind(p.nodes[i], id)]
        #![trigger laws::ordered_behind(q.nodes[i], id)]
        0 <= i < n implies laws::ordered_behind(p.nodes[i], id) == laws::ordered_behind(q.nodes[i], id) by {
        if laws::ordered_behind(p.nodes[i], id) {
            lemma_order_is_there(p, q, i, id);
        }
        if laws::ordered_behind(q.nodes[i], id) {
            lemma_order_is_there(q, p, i, id);
        }
    }
}

/// Whether a node's spans of time are no longer than the longest there is, and its name
/// fits.
pub open spec fn policy_encodable(node: NodeView) -> bool {
    let policy = node.policy();
    &&& fits(node.name)
    &&& policy.backoff.base@ <= MAX_NANOS
    &&& policy.backoff.cap@ <= MAX_NANOS
    &&& (policy.timeout matches Some(d) ==> d@ <= MAX_NANOS)
}

spec fn flags_end(node: NodeView) -> Seq<u8> {
    let policy = node.policy();
    seq![encoding::execution_class_code(node.effective_class())] + (seq![encoding::flag_code(policy.retained)] + (seq![
        encoding::flag_code(policy.durable),
    ] + seq![encoding::flag_code(policy.teardown)]))
}

spec fn cost_end(node: NodeView) -> Seq<u8> {
    let cost = node.policy().cost;
    bytes::le(cost.working_memory as nat, 8) + (bytes::le(cost.output_residency as nat, 8) + (bytes::le(
        cost.blocking_threads as nat,
        4,
    ) + (bytes::le(cost.compute_threads as nat, 4) + flags_end(node))))
}

spec fn knobs(node: NodeView) -> Seq<u8> {
    let policy = node.policy();
    bytes::le(policy.retries as nat, 4) + (bytes::le(encoding::encoded_nanos(policy.backoff.base), 16) + (bytes::le(
        encoding::encoded_nanos(policy.backoff.cap),
        16,
    ) + (bytes::le(policy.backoff.factor_bits as nat, 8) + (encoding::timeout_encoding(policy) + cost_end(node)))))
}

proof fn lemma_timeout_len(policy: NodePolicy)
    ensures
        encoding::timeout_encoding(policy).len() == 17,
{
    bytes::lemma_le_len(0, 16);
    if policy.timeout is Some {
        bytes::lemma_le_len(encoding::encoded_nanos(policy.timeout->0), 16);
    }
}

proof fn lemma_knobs(node: NodeView)
    ensures
        encoding::node_policy_encoding(node) == encoding::framed_text(encoding::TAG_NODE, node.name) + knobs(node),
        knobs(node).len() == 89,
{
    let policy = node.policy();
    let cost = policy.cost;
    bytes::lemma_le_len(policy.retries as nat, 4);
    bytes::lemma_le_len(encoding::encoded_nanos(policy.backoff.base), 16);
    bytes::lemma_le_len(encoding::encoded_nanos(policy.backoff.cap), 16);
    bytes::lemma_le_len(policy.backoff.factor_bits as nat, 8);
    lemma_timeout_len(policy);
    bytes::lemma_le_len(cost.working_memory as nat, 8);
    bytes::lemma_le_len(cost.output_residency as nat, 8);
    bytes::lemma_le_len(cost.blocking_threads as nat, 4);
    bytes::lemma_le_len(cost.compute_threads as nat, 4);
    assert(encoding::node_policy_encoding(node) =~= encoding::framed_text(encoding::TAG_NODE, node.name) + knobs(node));
}

proof fn lemma_byte(a: u8, x: Seq<u8>, b: u8, y: Seq<u8>)
    requires
        seq![a] + x == seq![b] + y,
    ensures
        a == b,
        x == y,
{
    lemma_fixed(seq![a], x, seq![b], y);
    assert(seq![a][0] == seq![b][0]);
}

proof fn lemma_flags_end(a: NodeView, b: NodeView)
    requires
        flags_end(a) == flags_end(b),
    ensures
        a.effective_class() == b.effective_class(),
        a.policy().retained == b.policy().retained,
        a.policy().durable == b.policy().durable,
        a.policy().teardown == b.policy().teardown,
{
    let t = |node: NodeView| seq![encoding::flag_code(node.policy().teardown)];
    let d = |node: NodeView| seq![encoding::flag_code(node.policy().durable)] + t(node);
    let r = |node: NodeView| seq![encoding::flag_code(node.policy().retained)] + d(node);
    lemma_byte(
        encoding::execution_class_code(a.effective_class()),
        r(a),
        encoding::execution_class_code(b.effective_class()),
        r(b),
    );
    lemma_byte(encoding::flag_code(a.policy().retained), d(a), encoding::flag_code(b.policy().retained), d(b));
    lemma_byte(encoding::flag_code(a.policy().durable), t(a), encoding::flag_code(b.policy().durable), t(b));
    assert(t(a)[0] == t(b)[0]);
}

proof fn lemma_cost_end(a: NodeView, b: NodeView)
    requires
        cost_end(a) == cost_end(b),
    ensures
        a.policy().cost == b.policy().cost,
        flags_end(a) == flags_end(b),
{
    let c = a.policy().cost;
    let d = b.policy().cost;
    bytes::lemma_bounds();
    let x3 = bytes::le(c.compute_threads as nat, 4) + flags_end(a);
    let y3 = bytes::le(d.compute_threads as nat, 4) + flags_end(b);
    let x2 = bytes::le(c.blocking_threads as nat, 4) + x3;
    let y2 = bytes::le(d.blocking_threads as nat, 4) + y3;
    let x1 = bytes::le(c.output_residency as nat, 8) + x2;
    let y1 = bytes::le(d.output_residency as nat, 8) + y2;
    lemma_number(c.working_memory as nat, x1, d.working_memory as nat, y1, 8);
    lemma_number(c.output_residency as nat, x2, d.output_residency as nat, y2, 8);
    lemma_number(c.blocking_threads as nat, x3, d.blocking_threads as nat, y3, 4);
    lemma_number(c.compute_threads as nat, flags_end(a), d.compute_threads as nat, flags_end(b), 4);
}

proof fn lemma_timeout(a: NodePolicy, x: Seq<u8>, b: NodePolicy, y: Seq<u8>)
    requires
        a.timeout matches Some(d) ==> d@ <= MAX_NANOS,
        b.timeout matches Some(d) ==> d@ <= MAX_NANOS,
        encoding::timeout_encoding(a) + x == encoding::timeout_encoding(b) + y,
    ensures
        a.timeout == b.timeout,
        x == y,
{
    broadcast use crate::time::lemma_duration_ext;

    lemma_timeout_len(a);
    lemma_timeout_len(b);
    let e = encoding::timeout_encoding(a);
    let f = encoding::timeout_encoding(b);
    lemma_fixed(e, x, f, y);
    bytes::lemma_bounds();
    assert(e[0] == f[0]);
    if a.timeout is Some && b.timeout is Some {
        let c = a.timeout->0;
        let d = b.timeout->0;
        lemma_byte(1, bytes::le(encoding::encoded_nanos(c), 16), 1, bytes::le(encoding::encoded_nanos(d), 16));
        bytes::lemma_le_injective(encoding::encoded_nanos(c), encoding::encoded_nanos(d), 16);
        assert(c@ == d@);
    }
}

proof fn lemma_same_knobs(a: NodeView, b: NodeView)
    requires
        policy_encodable(a),
        policy_encodable(b),
        knobs(a) == knobs(b),
    ensures
        a.effective_class() == b.effective_class(),
        (NodePolicy { class_override: None, ..a.policy() }) == (NodePolicy { class_override: None, ..b.policy() }),
{
    broadcast use crate::time::lemma_duration_ext;

    let p = a.policy();
    let q = b.policy();
    bytes::lemma_bounds();
    let x4 = encoding::timeout_encoding(p) + cost_end(a);
    let y4 = encoding::timeout_encoding(q) + cost_end(b);
    let x3 = bytes::le(p.backoff.factor_bits as nat, 8) + x4;
    let y3 = bytes::le(q.backoff.factor_bits as nat, 8) + y4;
    let x2 = bytes::le(encoding::encoded_nanos(p.backoff.cap), 16) + x3;
    let y2 = bytes::le(encoding::encoded_nanos(q.backoff.cap), 16) + y3;
    let x1 = bytes::le(encoding::encoded_nanos(p.backoff.base), 16) + x2;
    let y1 = bytes::le(encoding::encoded_nanos(q.backoff.base), 16) + y2;
    lemma_number(p.retries as nat, x1, q.retries as nat, y1, 4);
    lemma_number(encoding::encoded_nanos(p.backoff.base), x2, encoding::encoded_nanos(q.backoff.base), y2, 16);
    lemma_number(encoding::encoded_nanos(p.backoff.cap), x3, encoding::encoded_nanos(q.backoff.cap), y3, 16);
    lemma_number(p.backoff.factor_bits as nat, x4, q.backoff.factor_bits as nat, y4, 8);
    lemma_timeout(p, cost_end(a), q, cost_end(b));
    lemma_cost_end(a, b);
    lemma_flags_end(a, b);
    assert(p.backoff.base@ == q.backoff.base@);
    assert(p.backoff.cap@ == q.backoff.cap@);
    assert(p.backoff == q.backoff);
}

/// The encodings of the policies from node `k` on.
spec fn policies_from(p: PipelineView, k: int) -> Seq<u8>
    decreases p.nodes.len() - k,
{
    if k >= p.nodes.len() {
        Seq::empty()
    } else {
        encoding::node_policy_encoding(p.nodes[k]) + policies_from(p, k + 1)
    }
}

proof fn lemma_policies_from(p: PipelineView, k: int)
    requires
        0 <= k <= p.nodes.len(),
    ensures
        encoding::policies_encoding(p, k) + policies_from(p, k) == encoding::policy_encoding(p),
    decreases p.nodes.len() - k,
{
    let before = encoding::policies_encoding(p, k);
    if k < p.nodes.len() {
        lemma_policies_from(p, k + 1);
        let one = encoding::node_policy_encoding(p.nodes[k]);
        assert(before + (one + policies_from(p, k + 1)) =~= (before + one) + policies_from(p, k + 1));
    } else {
        assert(before + Seq::<u8>::empty() =~= before);
    }
}

proof fn lemma_same_from(p: PipelineView, q: PipelineView, k: int)
    requires
        0 <= k <= p.nodes.len(),
        k <= q.nodes.len(),
        forall|i: int| 0 <= i < p.nodes.len() ==> policy_encodable(#[trigger] p.nodes[i]),
        forall|i: int| 0 <= i < q.nodes.len() ==> policy_encodable(#[trigger] q.nodes[i]),
        policies_from(p, k) == policies_from(q, k),
    ensures
        p.nodes.len() == q.nodes.len(),
        forall|i: int|
            k <= i < p.nodes.len() ==> {
                let a = #[trigger] p.nodes[i];
                let b = q.nodes[i];
                &&& a.name == b.name
                &&& a.effective_class() == b.effective_class()
                &&& (NodePolicy { class_override: None, ..a.policy() }) == (NodePolicy {
                    class_override: None,
                    ..b.policy()
                })
            },
    decreases p.nodes.len() - k,
{
    if k < p.nodes.len() {
        lemma_knobs(p.nodes[k]);
    }
    if k < q.nodes.len() {
        lemma_knobs(q.nodes[k]);
    }
    if k < p.nodes.len() && k < q.nodes.len() {
        let a = p.nodes[k];
        let b = q.nodes[k];
        let x = policies_from(p, k + 1);
        let y = policies_from(q, k + 1);
        let tag = encoding::TAG_NODE;
        assert(policies_from(p, k) =~= encoding::framed_text(tag, a.name) + (knobs(a) + x));
        assert(policies_from(q, k) =~= encoding::framed_text(tag, b.name) + (knobs(b) + y));
        lemma_text(tag, a.name, knobs(a) + x, tag, b.name, knobs(b) + y);
        lemma_fixed(knobs(a), x, knobs(b), y);
        lemma_same_knobs(a, b);
        lemma_same_from(p, q, k + 1);
    } else if k < p.nodes.len() {
        assert(policies_from(p, k).len() >= 89);
    } else if k < q.nodes.len() {
        assert(policies_from(q, k).len() >= 89);
    }
}

/// The policy encoding tells the effective policies: two pipelines that are encoded alike
/// have the same nodes by name, with the same effective policies. So does every change of
/// an effective policy change what the policy hash is taken of.
pub proof fn law_policy_encoding_tells_the_policies(p: PipelineView, q: PipelineView)
    requires
        forall|i: int| 0 <= i < p.nodes.len() ==> policy_encodable(#[trigger] p.nodes[i]),
        forall|i: int| 0 <= i < q.nodes.len() ==> policy_encodable(#[trigger] q.nodes[i]),
        encoding::policy_encoding(p) == encoding::policy_encoding(q),
    ensures
        laws::same_policies(p, q),
{
    lemma_policies_from(p, 0);
    lemma_policies_from(q, 0);
    assert(encoding::policies_encoding(p, 0) + policies_from(p, 0) =~= policies_from(p, 0));
    assert(encoding::policies_encoding(q, 0) + policies_from(q, 0) =~= policies_from(q, 0));
    lemma_same_from(p, q, 0);
}

proof fn lemma_variables(x: Seq<Seq<char>>, y: Seq<Seq<char>>)
    requires
        forall|k: int| 0 <= k < x.len() ==> fits(#[trigger] x[k]),
        forall|k: int| 0 <= k < y.len() ==> fits(#[trigger] y[k]),
        encoding::env_encoding(x) == encoding::env_encoding(y),
    ensures
        x == y,
    decreases x.len(),
{
    if x.len() > 0 {
        lemma_variables_front(x);
    }
    if y.len() > 0 {
        lemma_variables_front(y);
    }
    if x.len() > 0 && y.len() > 0 {
        let fx = x.drop_first();
        let fy = y.drop_first();
        let tag = encoding::TAG_VARIABLE;
        lemma_text(tag, x[0], encoding::env_encoding(fx), tag, y[0], encoding::env_encoding(fy));
        assert forall|k: int| 0 <= k < fx.len() implies fits(#[trigger] fx[k]) by {
            assert(fits(x[k + 1]));
        }
        assert forall|k: int| 0 <= k < fy.len() implies fits(#[trigger] fy[k]) by {
            assert(fits(y[k + 1]));
        }
        lemma_variables(fx, fy);
        assert(x =~= seq![x[0]] + fx);
        assert(y =~= seq![y[0]] + fy);
    } else {
        assert(x =~= y);
    }
}

proof fn lemma_variables_front(list: Seq<Seq<char>>)
    requires
        list.len() > 0,
    ensures
        encoding::env_encoding(list) == encoding::framed_text(encoding::TAG_VARIABLE, list[0]) + encoding::env_encoding(
            list.drop_first(),
        ),
    decreases list.len(),
{
    let front = list.drop_last();
    let rest = list.drop_first();
    let last = encoding::framed_text(encoding::TAG_VARIABLE, list.last());
    if list.len() == 1 {
        assert(encoding::env_encoding(front) =~= Seq::<u8>::empty());
        assert(encoding::env_encoding(rest) =~= Seq::<u8>::empty());
        assert(encoding::env_encoding(list) =~= last);
        assert(last + encoding::env_encoding(rest) =~= last);
    } else {
        lemma_variables_front(front);
        assert(front.drop_first() =~= rest.drop_last());
        assert(rest.last() == list.last());
        let first = encoding::framed_text(encoding::TAG_VARIABLE, list[0]);
        let middle = encoding::env_encoding(front.drop_first());
        assert((first + middle) + last =~= first + (middle + last));
    }
}

/// The canonical byte form tells its parts: where it is the same, so are the structural
/// encoding, the policy encoding and the environment allowlist.
pub proof fn law_canonical_form_tells_its_parts(p: PipelineView, q: PipelineView)
    requires
        encoding::canonical_encoding(p).len() < 0x1_0000_0000_0000_0000,
        encoding::canonical_encoding(p) == encoding::canonical_encoding(q),
        forall|k: int| 0 <= k < p.env_allowlist.len() ==> fits(#[trigger] p.env_allowlist[k]),
        forall|k: int| 0 <= k < q.env_allowlist.len() ==> fits(#[trigger] q.env_allowlist[k]),
    ensures
        encoding::structural_encoding(p) == encoding::structural_encoding(q),
        encoding::policy_encoding(p) == encoding::policy_encoding(q),
        p.env_allowlist == q.env_allowlist,
{
    let none = Seq::<u8>::empty();
    let s1 = encoding::structural_encoding(p);
    let s2 = encoding::structural_encoding(q);
    let p1 = encoding::policy_encoding(p);
    let p2 = encoding::policy_encoding(q);
    let e1 = encoding::env_encoding(p.env_allowlist);
    let e2 = encoding::env_encoding(q.env_allowlist);
    let f1 = bytes::framed(encoding::TAG_ENVIRONMENT, e1);
    let f2 = bytes::framed(encoding::TAG_ENVIRONMENT, e2);
    let g1 = bytes::framed(encoding::TAG_POLICY, p1) + f1;
    let g2 = bytes::framed(encoding::TAG_POLICY, p2) + f2;
    assert(encoding::canonical_encoding(p) =~= bytes::framed(encoding::TAG_STRUCTURE, s1) + g1);
    assert(encoding::canonical_encoding(q) =~= bytes::framed(encoding::TAG_STRUCTURE, s2) + g2);
    bytes::law_framing_is_unambiguous(encoding::TAG_STRUCTURE, s1, g1, encoding::TAG_STRUCTURE, s2, g2);
    bytes::law_framing_is_unambiguous(encoding::TAG_POLICY, p1, f1, encoding::TAG_POLICY, p2, f2);
    assert(f1 + none =~= f1);
    assert(f2 + none =~= f2);
    bytes::law_framing_is_unambiguous(encoding::TAG_ENVIRONMENT, e1, none, encoding::TAG_ENVIRONMENT, e2, none);
    lemma_variables(p.env_allowlist, q.env_allowlist);
}

} // verus!
