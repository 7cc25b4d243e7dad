use vstd::prelude::*;

use crate::interaction::{Interaction, InteractionSpec, InteractionType, PairCol, VirtualPairCol, VpcSpec};

verus! {

/// A column of a chip that a bus message reads: in the message's count
/// (`slot` is `None`) or in its field `slot`, sent or received.
#[derive(Clone, Copy, Debug)]
pub struct ColumnRef {
    pub column: PairCol,
    pub bus: usize,
    pub slot: Option<usize>,
    pub kind: InteractionType,
}

/// Which way a column's values go on a bus: out, in, or both.
#[derive(Clone, Copy, PartialEq, Eq, Structural, Debug)]
pub enum Direction {
    Send,
    Receive,
    Both,
}

/// A line of the schema: a column, the place on a bus it feeds, and which
/// way its values go.
#[derive(Clone, Copy, Debug)]
pub struct SchemaRef {
    pub column: PairCol,
    pub bus: usize,
    pub slot: Option<usize>,
    pub direction: Direction,
}

/// The references of the columns of one virtual column.
pub open spec fn weight_refs(
    weights: Seq<(PairCol, u32)>,
    bus: usize,
    slot: Option<usize>,
    kind: InteractionType,
) -> Seq<ColumnRef> {
    Seq::new(weights.len(), |w: int| ColumnRef { column: weights[w].0, bus, slot, kind })
}

/// The references of the first `n` fields of a message.
pub open spec fn field_refs(fields: Seq<VpcSpec>, bus: usize, kind: InteractionType, n: int) -> Seq<ColumnRef>
    decreases n,
{
    if n <= 0 {
        seq![]
    } else {
        field_refs(fields, bus, kind, n - 1) + weight_refs(fields[n - 1].weights, bus, Some((n - 1) as usize), kind)
    }
}

/// The references of a message: its count's columns, then each field's.
pub open spec fn interaction_refs(i: InteractionSpec, kind: InteractionType) -> Seq<ColumnRef> {
    weight_refs(i.count.weights, i.argument_index, None, kind) + field_refs(
        i.fields,
        i.argument_index,
        kind,
        i.fields.len() as int,
    )
}

/// The references of the first `n` messages, in order.
pub open spec fn all_refs(ints: Seq<(InteractionSpec, InteractionType)>, n: int) -> Seq<ColumnRef>
    decreases n,
{
    if n <= 0 {
        seq![]
    } else {
        all_refs(ints, n - 1) + interaction_refs(ints[n - 1].0, ints[n - 1].1)
    }
}

/// The content of a list of tagged interactions.
pub open spec fn tagged_view(ints: Seq<(Interaction, InteractionType)>) -> Seq<(InteractionSpec, InteractionType)> {
    ints.map_values(|t: (Interaction, InteractionType)| (t.0@, t.1))
}

/// Two references to the same column at the same place of the same bus.
pub open spec fn same_place(column: PairCol, bus: usize, slot: Option<usize>, r: ColumnRef) -> bool {
    r.column == column && r.bus == bus && r.slot == slot
}

/// Some reference of the kind is to that column at that place.
pub open spec fn has_ref(
    refs: Seq<ColumnRef>,
    column: PairCol,
    bus: usize,
    slot: Option<usize>,
    kind: InteractionType,
) -> bool {
    exists|k: int| 0 <= k < refs.len() && #[trigger] same_place(column, bus, slot, refs[k]) && refs[k].kind == kind
}

/// The way a column's values go at a place: both ways when it is both sent
/// and received there.
pub open spec fn merged_direction(refs: Seq<ColumnRef>, column: PairCol, bus: usize, slot: Option<usize>) -> Direction {
    let sent = has_ref(refs, column, bus, slot, InteractionType::Send);
    let received = has_ref(refs, column, bus, slot, InteractionType::Receive);
    if sent && received {
        Direction::Both
    } else if sent {
        Direction::Send
    } else {
        Direction::Receive
    }
}

/// The schema lines of a list of references: one line per column and place,
/// with the merged direction.
pub open spec fn schema_of(refs: Seq<ColumnRef>, r: Seq<SchemaRef>) -> bool {
    &&& forall|e: int|
        0 <= e < r.len() ==> (has_ref(refs, r[e].column, r[e].bus, r[e].slot, InteractionType::Send) || has_ref(
            refs,
            r[e].column,
            r[e].bus,
            r[e].slot,
            InteractionType::Receive,
        )) && #[trigger] r[e].direction == merged_direction(refs, r[e].column, r[e].bus, r[e].slot)
    &&& forall|k: int|
        0 <= k < refs.len() ==> exists|e: int|
            0 <= e < r.len() && same_place(r[e].column, r[e].bus, r[e].slot, #[trigger] refs[k])
    &&& forall|e: int, f: int|
        0 <= e < f < r.len() ==> !same_place(r[e].column, r[e].bus, r[e].slot, ColumnRef {
            column: r[f].column,
            bus: r[f].bus,
            slot: r[f].slot,
            kind: InteractionType::Send,
        })
}

fn same_slot(a: Option<usize>, b: Option<usize>) -> (r: bool)
    ensures
        r == (a == b),
{
    match (a, b) {
        (Some(x), Some(y)) => x == y,
        (None, None) => true,
        _ => false,
    }
}

/// Appends the references of a virtual column's columns.
fn push_weight_refs(
    out: &mut Vec<ColumnRef>,
    v: &VirtualPairCol,
    bus: usize,
    slot: Option<usize>,
    kind: InteractionType,
)
    ensures
        final(out)@ == old(out)@ + weight_refs(v@.weights, bus, slot, kind),
{
    let ghost start = out@;
    for w in 0..v.column_weights.len()
        invariant
            out@ == start + weight_refs(v@.weights.take(w as int), bus, slot, kind),
    {
        out.push(ColumnRef { column: v.column_weights[w].0, bus, slot, kind });
        assert(out@ =~= start + weight_refs(v@.weights.take(w + 1), bus, slot, kind));
    }
    assert(v@.weights.take(v.column_weights.len() as int) =~= v@.weights);
}

/// The references of every tagged interaction, in order.
pub fn column_refs(ints: &Vec<(Interaction, InteractionType)>) -> (r: Vec<ColumnRef>)
    ensures
        r@ == all_refs(tagged_view(ints@), ints.len() as int),
{
    let ghost view = tagged_view(ints@);
    let mut out: Vec<ColumnRef> = Vec::new();
    for m in 0..ints.len()
        invariant
            view == tagged_view(ints@),
            out@ == all_refs(view, m as int),
    {
        let (interaction, kind) = (&ints[m].0, ints[m].1);
        let bus: usize = interaction.argument_index;
        let ghost before = out@;
        push_weight_refs(&mut out, &interaction.count, bus, None, kind);
        let ghost after_count = out@;
        for j in 0..interaction.fields.len()
            invariant
                out@ == after_count + field_refs(interaction@.fields, bus, kind, j as int),
                interaction.fields@.len() == interaction@.fields.len(),
                forall|x: int| 0 <= x < interaction.fields.len() ==> #[trigger] interaction@.fields[x] == interaction.fields@[x]@,
        {
            push_weight_refs(&mut out, &interaction.fields[j], bus, Some(j), kind);
            assert(out@ =~= after_count + field_refs(interaction@.fields, bus, kind, j + 1));
        }
        assert(view[m as int] == (interaction@, kind));
        assert(out@ =~= all_refs(view, m + 1));
    }
    out
}

/// The schema lines of a list of references: one per column and place, in
/// the order the places first occur, each with the way its values go.
pub fn merge_refs(refs: &Vec<ColumnRef>) -> (r: Vec<SchemaRef>)
    ensures
        schema_of(refs@, r@),
{
    let mut r: Vec<SchemaRef> = Vec::new();
    for i in 0..refs.len()
        invariant
            schema_of(refs@.take(i as int), r@),
    {
        let x = refs[i];
        let ghost prev = refs@.take(i as int);
        let ghost next = refs@.take(i + 1);
        assert(next =~= prev.push(x));
        let mut found: usize = r.len();
        for e in 0..r.len()
            invariant
                found == r.len() || (found < e && same_place(x.column, x.bus, x.slot, ColumnRef {
                    column: r[found as int].column,
                    bus: r[found as int].bus,
                    slot: r[found as int].slot,
                    kind: x.kind,
                })),
                found == r.len() ==> forall|f: int| 0 <= f < e ==> !same_place(x.column, x.bus, x.slot, ColumnRef {
                    column: r[f].column,
                    bus: r[f].bus,
                    slot: r[f].slot,
                    kind: x.kind,
                }),
        {
            if found == r.len() && r[e].column == x.column && r[e].bus == x.bus && same_slot(r[e].slot, x.slot) {
                found = e;
            }
        }
        let ghost old_r = r@;
        let dir = match x.kind {
            InteractionType::Send => Direction::Send,
            InteractionType::Receive => Direction::Receive,
        };
        if found == r.len() {
            r.push(SchemaRef { column: x.column, bus: x.bus, slot: x.slot, direction: dir });
        } else {
            let current = r[found];
            let merged = if current.direction == dir { dir } else { Direction::Both };
            r.set(found, SchemaRef { column: current.column, bus: current.bus, slot: current.slot, direction: merged });
        }
        proof {
            lemma_merge_step(prev, x, old_r, r@, found as int);
        }
        assert(schema_of(next, r@));
    }
    assert(refs@.take(refs.len() as int) =~= refs@);
    r
}

/// One step of the merge keeps the schema lines those of the references
/// seen so far.
proof fn lemma_merge_step(prev: Seq<ColumnRef>, x: ColumnRef, old_r: Seq<SchemaRef>, new_r: Seq<SchemaRef>, found: int)
    requires
        schema_of(prev, old_r),
        0 <= found <= old_r.len(),
        found < old_r.len() ==> same_place(x.column, x.bus, x.slot, ColumnRef {
            column: old_r[found].column,
            bus: old_r[found].bus,
            slot: old_r[found].slot,
            kind: x.kind,
        }),
        found == old_r.len() ==> forall|f: int| 0 <= f < old_r.len() ==> !same_place(x.column, x.bus, x.slot, ColumnRef {
            column: old_r[f].column,
            bus: old_r[f].bus,
            slot: old_r[f].slot,
            kind: x.kind,
        }),
        found == old_r.len() ==> new_r == old_r.push(SchemaRef {
            column: x.column,
            bus: x.bus,
            slot: x.slot,
            direction: if x.kind == InteractionType::Send { Direction::Send } else { Direction::Receive },
        }),
        found < old_r.len() ==> new_r == old_r.update(found, SchemaRef {
            column: old_r[found].column,
            bus: old_r[found].bus,
            slot: old_r[found].slot,
            direction: if old_r[found].direction == (if x.kind == InteractionType::Send {
                Direction::Send
            } else {
                Direction::Receive
            }) {
                old_r[found].direction
            } else {
                Direction::Both
            },
        }),
    ensures
        schema_of(prev.push(x), new_r),
{
    let next = prev.push(x);
    let n: int = prev.len() as int;
    assert(same_place(x.column, x.bus, x.slot, next[n]));
    assert forall|column: PairCol, bus: usize, slot: Option<usize>, kind: InteractionType|
        has_ref(next, column, bus, slot, kind) == (has_ref(prev, column, bus, slot, kind) || (same_place(
            column,
            bus,
            slot,
            x,
        ) && x.kind == kind)) by {
        if has_ref(prev, column, bus, slot, kind) {
            let k = choose|k: int| 0 <= k < prev.len() && #[trigger] same_place(column, bus, slot, prev[k]) && prev[k].kind == kind;
            assert(same_place(column, bus, slot, next[k]));
        }
        if same_place(column, bus, slot, x) && x.kind == kind {
            assert(same_place(column, bus, slot, next[n]));
        }
        if has_ref(next, column, bus, slot, kind) {
            let k = choose|k: int| 0 <= k < next.len() && #[trigger] same_place(column, bus, slot, next[k]) && next[k].kind == kind;
            if k < n {
                assert(same_place(column, bus, slot, prev[k]));
            }
        }
    }
    assert forall|e: int| 0 <= e < new_r.len() implies (has_ref(next, new_r[e].column, new_r[e].bus, new_r[e].slot, InteractionType::Send)
        || has_ref(next, new_r[e].column, new_r[e].bus, new_r[e].slot, InteractionType::Receive)) && #[trigger] new_r[e].direction
        == merged_direction(next, new_r[e].column, new_r[e].bus, new_r[e].slot) by {
        if e < old_r.len() && e != found {
            assert(old_r[e].direction == merged_direction(prev, old_r[e].column, old_r[e].bus, old_r[e].slot));
            if found == old_r.len() {
                assert(!same_place(x.column, x.bus, x.slot, ColumnRef {
                    column: old_r[e].column,
                    bus: old_r[e].bus,
                    slot: old_r[e].slot,
                    kind: x.kind,
                }));
            } else if e < found {
                assert(!same_place(old_r[e].column, old_r[e].bus, old_r[e].slot, ColumnRef {
                    column: old_r[found].column,
                    bus: old_r[found].bus,
                    slot: old_r[found].slot,
                    kind: InteractionType::Send,
                }));
            } else {
                assert(!same_place(old_r[found].column, old_r[found].bus, old_r[found].slot, ColumnRef {
                    column: old_r[e].column,
                    bus: old_r[e].bus,
                    slot: old_r[e].slot,
                    kind: InteractionType::Send,
                }));
            }
            assert(!same_place(new_r[e].column, new_r[e].bus, new_r[e].slot, x));
        } else if e < old_r.len() {
            assert(old_r[e].direction == merged_direction(prev, old_r[e].column, old_r[e].bus, old_r[e].slot));
        } else {
            assert forall|kind: InteractionType| !has_ref(prev, x.column, x.bus, x.slot, kind) by {
                if has_ref(prev, x.column, x.bus, x.slot, kind) {
                    let k = choose|k: int| 0 <= k < prev.len() && #[trigger] same_place(x.column, x.bus, x.slot, prev[k]) && prev[k].kind == kind;
                    let w = choose|w: int| 0 <= w < old_r.len() && same_place(old_r[w].column, old_r[w].bus, old_r[w].slot, #[trigger] prev[k]);
                    assert(same_place(x.column, x.bus, x.slot, ColumnRef {
                        column: old_r[w].column,
                        bus: old_r[w].bus,
                        slot: old_r[w].slot,
                        kind: x.kind,
                    }));
                }
            }
        }
    }
    assert forall|k: int| 0 <= k < next.len() implies exists|e: int|
        0 <= e < new_r.len() && same_place(new_r[e].column, new_r[e].bus, new_r[e].slot, #[trigger] next[k]) by {
        if k < n {
            let w = choose|w: int| 0 <= w < old_r.len() && same_place(old_r[w].column, old_r[w].bus, old_r[w].slot, #[trigger] prev[k]);
            assert(same_place(new_r[w].column, new_r[w].bus, new_r[w].slot, next[k]));
        } else if found < old_r.len() {
            assert(same_place(new_r[found].column, new_r[found].bus, new_r[found].slot, next[k]));
        } else {
            assert(same_place(new_r[found].column, new_r[found].bus, new_r[found].slot, next[k]));
        }
    }
}

/// Some message of the list is on bus `b`.
pub open spec fn on_bus(shapes: Seq<(usize, usize)>, b: usize) -> bool {
    exists|m: int| 0 <= m < shapes.len() && (#[trigger] shapes[m]).0 == b
}

/// The largest number of fields of a message on bus `b`, 0 when there is
/// none; each message is given by its bus and its number of fields.
pub open spec fn bus_length(shapes: Seq<(usize, usize)>, b: usize) -> nat
    decreases shapes.len(),
{
    if shapes.len() == 0 {
        0
    } else {
        let prev = bus_length(shapes.drop_last(), b);
        if shapes.last().0 == b && shapes.last().1 > prev {
            shapes.last().1 as nat
        } else {
            prev
        }
    }
}

/// The bus and the number of fields of each message.
pub open spec fn message_shapes(ints: Seq<(InteractionSpec, InteractionType)>) -> Seq<(usize, usize)> {
    ints.map_values(|t: (InteractionSpec, InteractionType)| (t.0.argument_index, t.0.fields.len() as usize))
}

/// The bus and the number of fields of each message of each chip, chip
/// after chip.
pub open spec fn machine_shapes(chips: Seq<Seq<(InteractionSpec, InteractionType)>>, c: int) -> Seq<(usize, usize)>
    decreases c,
{
    if c <= 0 {
        seq![]
    } else {
        machine_shapes(chips, c - 1) + message_shapes(chips[c - 1])
    }
}

/// The content of each chip's tagged interactions.
pub open spec fn chips_view(chips: Seq<Vec<(Interaction, InteractionType)>>) -> Seq<Seq<(InteractionSpec, InteractionType)>> {
    chips.map_values(|ints: Vec<(Interaction, InteractionType)>| tagged_view(ints@))
}

/// The bus and the number of fields of every message of the machine.
fn shapes_of(chips: &Vec<Vec<(Interaction, InteractionType)>>) -> (r: Vec<(usize, usize)>)
    ensures
        r@ == machine_shapes(chips_view(chips@), chips.len() as int),
{
    let ghost view = chips_view(chips@);
    let mut r: Vec<(usize, usize)> = Vec::new();
    for c in 0..chips.len()
        invariant
            view == chips_view(chips@),
            r@ == machine_shapes(view, c as int),
    {
        let ghost start = r@;
        let ints = &chips[c];
        assert(view[c as int] == tagged_view(ints@));
        for m in 0..ints.len()
            invariant
                view[c as int] == tagged_view(ints@),
                r@ == start + message_shapes(view[c as int]).take(m as int),
        {
            r.push((ints[m].0.argument_index, ints[m].0.fields.len()));
            assert(r@ =~= start + message_shapes(view[c as int]).take(m + 1));
        }
        assert(message_shapes(view[c as int]).take(ints.len() as int) =~= message_shapes(view[c as int]));
    }
    r
}

/// The largest number of fields of a message on bus `b`, and whether there
/// is one.
fn bus_length_of(shapes: &Vec<(usize, usize)>, b: usize) -> (r: (bool, usize))
    ensures
        r.0 == on_bus(shapes@, b),
        r.1 == bus_length(shapes@, b),
{
    let mut seen = false;
    let mut len: usize = 0;
    for k in 0..shapes.len()
        invariant
            seen == on_bus(shapes@.take(k as int), b),
            len == bus_length(shapes@.take(k as int), b),
    {
        let ghost prev = shapes@.take(k as int);
        let ghost next = shapes@.take(k + 1);
        assert(next.drop_last() =~= prev);
        if shapes[k].0 == b {
            seen = true;
            if shapes[k].1 > len {
                len = shapes[k].1;
            }
            assert(next[k as int].0 == b);
        } else {
            assert(on_bus(next, b) ==> on_bus(prev, b)) by {
                if on_bus(next, b) {
                    let m = choose|m: int| 0 <= m < next.len() && (#[trigger] next[m]).0 == b;
                    assert(prev[m].0 == b);
                }
            }
        }
        assert(on_bus(prev, b) ==> on_bus(next, b)) by {
            if on_bus(prev, b) {
                let m = choose|m: int| 0 <= m < prev.len() && (#[trigger] prev[m]).0 == b;
                assert(next[m].0 == b);
            }
        }
    }
    assert(shapes@.take(shapes.len() as int) =~= shapes@);
    (seen, len)
}

/// The bus tables of messages of these shapes: each bus that some message
/// is on, in increasing order, with the largest number of fields of a
/// message on it.
pub open spec fn bus_tables(shapes: Seq<(usize, usize)>, r: Seq<(usize, usize)>) -> bool {
    &&& forall|e: int| 0 <= e < r.len() ==> on_bus(shapes, #[trigger] r[e].0) && r[e].1 == bus_length(shapes, r[e].0)
    &&& forall|e: int, f: int| 0 <= e < f < r.len() ==> r[e].0 < r[f].0
    &&& forall|b: usize| #[trigger] on_bus(shapes, b) ==> exists|e: int| 0 <= e < r.len() && r[e].0 == b
}

/// The bus tables of the schema of a machine whose chips have these tagged
/// interactions.
pub fn bus_lengths(chips: &Vec<Vec<(Interaction, InteractionType)>>) -> (r: Vec<(usize, usize)>)
    ensures
        bus_tables(machine_shapes(chips_view(chips@), chips.len() as int), r@),
{
    let shapes = shapes_of(chips);
    let ghost sh = shapes@;
    let mut r: Vec<(usize, usize)> = Vec::new();
    if shapes.len() == 0 {
        return r;
    }
    let mut top: usize = 0;
    for k in 0..shapes.len()
        invariant
            forall|m: int| 0 <= m < k ==> (#[trigger] shapes@[m]).0 <= top,
    {
        if shapes[k].0 > top {
            top = shapes[k].0;
        }
    }
    let mut b: usize = 0;
    loop
        invariant_except_break
            forall|e: int| 0 <= e < r.len() ==> r[e].0 < b,
        invariant
            b <= top,
            sh == shapes@,
            forall|m: int| 0 <= m < sh.len() ==> (#[trigger] sh[m]).0 <= top,
            forall|e: int| 0 <= e < r.len() ==> on_bus(sh, #[trigger] r[e].0) && r[e].1 == bus_length(sh, r[e].0),
            forall|e: int, f: int| 0 <= e < f < r.len() ==> r[e].0 < r[f].0,
            forall|x: usize| x < b && #[trigger] on_bus(sh, x) ==> exists|e: int| 0 <= e < r.len() && r[e].0 == x,
        ensures
            forall|e: int| 0 <= e < r.len() ==> on_bus(sh, #[trigger] r[e].0) && r[e].1 == bus_length(sh, r[e].0),
            forall|e: int, f: int| 0 <= e < f < r.len() ==> r[e].0 < r[f].0,
            forall|x: usize| x <= top && #[trigger] on_bus(sh, x) ==> exists|e: int| 0 <= e < r.len() && r[e].0 == x,
        decreases top - b,
    {
        let (seen, len) = bus_length_of(&shapes, b);
        let ghost old_r = r@;
        if seen {
            r.push((b, len));
            assert(r[r.len() - 1].0 == b);
        }
        assert forall|x: usize| x <= b && #[trigger] on_bus(sh, x) implies exists|e: int| 0 <= e < r.len() && r[e].0 == x by {
            if x == b {
                assert(r[r.len() - 1].0 == b);
            } else {
                assert(x < b);
                let e = choose|e: int| 0 <= e < old_r.len() && old_r[e].0 == x;
                assert(r@[e] == old_r[e]);
            }
        }
        if b == top {
            break;
        }
        b = b + 1;
    }
    assert forall|x: usize| #[trigger] on_bus(sh, x) implies exists|e: int| 0 <= e < r.len() && r[e].0 == x by {
        let m = choose|m: int| 0 <= m < sh.len() && (#[trigger] sh[m]).0 == x;
        assert(sh[m].0 <= top);
    }
    r
}

/// The schema of a machine whose chips have these tagged interactions: its
/// bus tables, and for each chip the lines that tie its columns to the
/// places on the buses that they feed.
pub fn machine_schema(chips: &Vec<Vec<(Interaction, InteractionType)>>) -> (r: (Vec<(usize, usize)>, Vec<
    Vec<SchemaRef>,
>))
    ensures
        bus_tables(machine_shapes(chips_view(chips@), chips.len() as int), r.0@),
        r.1.len() == chips.len(),
        forall|c: int|
            0 <= c < chips.len() ==> schema_of(
                all_refs(tagged_view(chips[c]@), chips[c].len() as int),
                #[trigger] r.1[c]@,
            ),
{
    let buses = bus_lengths(chips);
    let mut lines: Vec<Vec<SchemaRef>> = Vec::new();
    for c in 0..chips.len()
        invariant
            lines.len() == c,
            forall|k: int|
                0 <= k < c ==> schema_of(all_refs(tagged_view(chips[k]@), chips[k].len() as int), #[trigger] lines[k]@),
    {
        let refs = column_refs(&chips[c]);
        lines.push(merge_refs(&refs));
    }
    (buses, lines)
}

} // verus!
