use crate::utils::text::{
    fields, is_digit, is_space, lemma_fields_append, lemma_fields_single, lemma_words_append,
    lemma_words_single, number_text, words,
};
use crate::year2025::day10::counters::{affects, touches};
use crate::year2025::day10::lights::low_bits;
use crate::year2025::day10::machine::{
    all_fit, button_spec, buttons_spec, diagram_mask, fits, indices_mask, inner, jolts_spec,
    machine_spec, mask_spec, numbers_spec, smaller, Machine, MachineView,
};
use crate::year2025::day10::text::{lemma_number_round_trip, list_text, push_list, ParseError};
use vstd::prelude::*;

verus! {

/// The cells of a light diagram: `#` for a light that is to be on, `.` for
/// any other.
pub open spec fn diagram_cells(count: nat, lights: u64) -> Seq<u8> {
    Seq::new(
        count,
        |i: int|
            if affects(lights, i) {
                35u8
            } else {
                46u8
            },
    )
}

/// A light diagram in its brackets.
pub open spec fn diagram_text(count: nat, lights: u64) -> Seq<u8> {
    seq![91u8] + diagram_cells(count, lights) + seq![93u8]
}

/// The positions below `k` that `mask` holds, in rising order.
pub open spec fn set_bits(mask: u64, k: nat) -> Seq<u32>
    decreases k,
{
    if k == 0 {
        Seq::empty()
    } else {
        let rest = set_bits(mask, (k - 1) as nat);
        if affects(mask, k - 1) {
            rest.push((k - 1) as u32)
        } else {
            rest
        }
    }
}

/// A button in its brackets: its positions in rising order.
pub open spec fn button_text(mask: u64) -> Seq<u8> {
    seq![40u8] + list_text(set_bits(mask, 64)) + seq![41u8]
}

/// The targets of the counters in their brackets.
pub open spec fn jolts_text(joltage: Seq<u32>) -> Seq<u8> {
    seq![123u8] + list_text(joltage) + seq![125u8]
}

/// The light diagram and the first `k` buttons, parted by single spaces.
pub open spec fn line_upto(m: MachineView, k: nat) -> Seq<u8>
    decreases k,
{
    if k == 0 {
        diagram_text(m.light_count, m.lights)
    } else {
        line_upto(m, (k - 1) as nat) + seq![32u8] + button_text(m.buttons[k - 1])
    }
}

/// The line that describes a machine in one way only: the light diagram,
/// the buttons in their order, each with its positions rising, and the
/// targets, parted by single spaces, every number without leading zeros.
pub open spec fn line_text(m: MachineView) -> Seq<u8> {
    line_upto(m, m.buttons.len()) + seq![32u8] + jolts_text(m.joltage)
}

impl Machine {
    /// The line that describes the machine. Read again, it gives the
    /// machine back.
    pub fn render(&self) -> (out: Vec<u8>)
        ensures
            out@ == line_text(self@),
            machine_spec(out@) == Ok::<MachineView, ParseError>(self@),
    {
        let count = self.light_count();
        let lights = self.lights();
        let buttons = self.buttons();
        let joltage = self.joltage();
        let mut out: Vec<u8> = Vec::new();
        out.push(91);
        let mut i: usize = 0;
        while i < count
            invariant
                i <= count,
                out@ == seq![91u8] + diagram_cells(i as nat, lights),
            decreases count - i,
        {
            out.push(if touches(lights, i) {
                35
            } else {
                46
            });
            assert(out@ =~= seq![91u8] + diagram_cells((i + 1) as nat, lights));
            i += 1;
        }
        out.push(93);
        assert(out@ =~= diagram_text(count as nat, lights));
        let mut j: usize = 0;
        while j < buttons.len()
            invariant
                j <= buttons.len(),
                count == self@.light_count,
                lights == self@.lights,
                buttons@ == self@.buttons,
                out@ == line_upto(self@, j as nat),
            decreases buttons.len() - j,
        {
            let ghost before = out@;
            out.push(32);
            out.push(40);
            let positions = positions_of(buttons[j]);
            push_list(&mut out, &positions);
            out.push(41);
            assert(out@ =~= before + seq![32u8] + button_text(buttons[j as int]));
            j += 1;
        }
        let ghost before = out@;
        out.push(32);
        out.push(123);
        push_list(&mut out, joltage);
        out.push(125);
        assert(out@ =~= before + seq![32u8] + jolts_text(joltage@));
        proof {
            lemma_round_trip(self@);
        }
        out
    }
}

/// The positions that `mask` holds, in rising order.
fn positions_of(mask: u64) -> (positions: Vec<u32>)
    ensures
        positions@ == set_bits(mask, 64),
{
    let mut positions: Vec<u32> = Vec::new();
    let mut i: usize = 0;
    while i < 64
        invariant
            i <= 64,
            positions@ == set_bits(mask, i as nat),
        decreases 64 - i,
    {
        if touches(mask, i) {
            positions.push(i as u32);
        }
        i += 1;
    }
    positions
}

/// How the mask of the lowest `k + 1` positions comes from that of the
/// lowest `k`.
proof fn lemma_low_bits_step(m: u64, k: nat)
    requires
        k < 64,
    ensures
        affects(m, k as int) ==> m & low_bits(k + 1) == (m & low_bits(k)) | (1u64 << (k as u64)),
        !affects(m, k as int) ==> m & low_bits(k + 1) == m & low_bits(k),
        m & low_bits(0) == 0,
        m & low_bits(64) == m,
{
    let kk = k as u64;
    let a = low_bits(k);
    let b = low_bits(k + 1);
    assert(a == ((1u64 << kk) - 1) as u64);
    if k == 63 {
        assert(b == 0xffff_ffff_ffff_ffffu64);
        assert((m >> kk) & 1 == 1 ==> m & b == (m & a) | (1u64 << kk)) by (bit_vector)
            requires
                kk == 63,
                a == ((1u64 << kk) - 1) as u64,
                b == 0xffff_ffff_ffff_ffffu64,
        ;
        assert((m >> kk) & 1 != 1 ==> m & b == m & a) by (bit_vector)
            requires
                kk == 63,
                a == ((1u64 << kk) - 1) as u64,
                b == 0xffff_ffff_ffff_ffffu64,
        ;
    } else {
        let k1 = (k + 1) as u64;
        assert(b == ((1u64 << k1) - 1) as u64);
        assert((m >> kk) & 1 == 1 ==> m & b == (m & a) | (1u64 << kk)) by (bit_vector)
            requires
                kk < 63,
                k1 == kk + 1,
                a == ((1u64 << kk) - 1) as u64,
                b == ((1u64 << k1) - 1) as u64,
        ;
        assert((m >> kk) & 1 != 1 ==> m & b == m & a) by (bit_vector)
            requires
                kk < 63,
                k1 == kk + 1,
                a == ((1u64 << kk) - 1) as u64,
                b == ((1u64 << k1) - 1) as u64,
        ;
    }
    let z = low_bits(0);
    assert(z == ((1u64 << 0u64) - 1) as u64);
    assert(m & z == 0) by (bit_vector)
        requires
            z == ((1u64 << 0u64) - 1) as u64,
    ;
    assert(m & 0xffff_ffff_ffff_ffffu64 == m) by (bit_vector);
}

/// The cells of a diagram read back as the lights below their number.
proof fn lemma_diagram_prefix(count: nat, lights: u64, k: nat)
    requires
        k <= count <= 64,
    ensures
        diagram_mask(diagram_cells(count, lights).take(k as int)) == lights & low_bits(k),
    decreases k,
{
    let cells = diagram_cells(count, lights);
    if k == 0 {
        lemma_low_bits_step(lights, 0);
        assert(cells.take(0) =~= Seq::<u8>::empty());
    } else {
        lemma_diagram_prefix(count, lights, (k - 1) as nat);
        lemma_low_bits_step(lights, (k - 1) as nat);
        assert(cells.take(k as int).drop_last() =~= cells.take(k - 1));
        assert(cells.take(k as int).last() == cells[k - 1]);
    }
}

/// A light diagram reads back as it was written.
pub proof fn lemma_diagram_round_trip(count: nat, lights: u64)
    requires
        count <= 64,
        fits(lights, count),
    ensures
        mask_spec(diagram_text(count, lights)) == Ok::<(nat, u64), ParseError>((count, lights)),
{
    let text = diagram_text(count, lights);
    let cells = diagram_cells(count, lights);
    assert(inner(text) =~= cells);
    assert(text[0] == 91u8);
    assert(text.last() == 93u8);
    lemma_diagram_prefix(count, lights, count);
    assert(cells.take(count as int) =~= cells);
    let keep = low_bits(count);
    assert(lights & keep == lights) by (bit_vector)
        requires
            lights & !keep == 0,
    ;
}

/// The numbers of a list, each as it is written.
pub open spec fn texts(values: Seq<u32>) -> Seq<Seq<u8>> {
    Seq::new(values.len(), |i: int| number_text(values[i] as nat))
}

/// A written list holds digits and commas only.
proof fn lemma_list_bytes(values: Seq<u32>)
    ensures
        forall|i: int|
            0 <= i < list_text(values).len() ==> is_digit(#[trigger] list_text(values)[i])
                || list_text(values)[i] == 44,
    decreases values.len(),
{
    let list = list_text(values);
    if values.len() == 0 {
    } else if values.len() == 1 {
        lemma_number_round_trip(values[0] as nat);
    } else {
        let before = list_text(values.drop_last());
        let t = number_text(values.last() as nat);
        lemma_list_bytes(values.drop_last());
        lemma_number_round_trip(values.last() as nat);
        assert forall|i: int| 0 <= i < list.len() implies is_digit(#[trigger] list[i]) || list[i]
            == 44 by {
            if i < before.len() {
                assert(list[i] == before[i]);
            } else if i > before.len() {
                assert(list[i] == t[i - before.len() - 1]);
            }
        }
    }
}

/// The fields of a written list are its numbers as they are written.
proof fn lemma_list_fields(values: Seq<u32>)
    requires
        values.len() >= 1,
    ensures
        fields(list_text(values)) == texts(values),
    decreases values.len(),
{
    if values.len() == 1 {
        let t = number_text(values[0] as nat);
        lemma_number_round_trip(values[0] as nat);
        lemma_fields_single(t);
        assert(seq![t] =~= texts(values));
    } else {
        let init = values.drop_last();
        let t = number_text(values.last() as nat);
        lemma_list_fields(init);
        lemma_number_round_trip(values.last() as nat);
        lemma_fields_append(list_text(init), t);
        assert(texts(init).push(t) =~= texts(values));
    }
}

/// Written numbers read back as they were.
proof fn lemma_numbers_round_trip(values: Seq<u32>)
    ensures
        numbers_spec(texts(values)) == Ok::<Seq<u32>, ParseError>(values),
    decreases values.len(),
{
    if values.len() > 0 {
        let init = values.drop_last();
        lemma_numbers_round_trip(init);
        lemma_number_round_trip(values.last() as nat);
        assert(texts(values).drop_last() =~= texts(init));
        assert(texts(values).last() == number_text(values.last() as nat));
        assert(init.push(values.last()) =~= values);
    } else {
        assert(values =~= Seq::<u32>::empty());
    }
}

/// The written positions of a mask read back as the mask below their
/// bound.
proof fn lemma_positions_round_trip(mask: u64, k: nat)
    requires
        k <= 64,
    ensures
        indices_mask(texts(set_bits(mask, k))) == Ok::<u64, ParseError>(mask & low_bits(k)),
    decreases k,
{
    if k == 0 {
        lemma_low_bits_step(mask, 0);
        assert(texts(set_bits(mask, 0)) =~= Seq::<Seq<u8>>::empty());
    } else {
        let before = set_bits(mask, (k - 1) as nat);
        lemma_positions_round_trip(mask, (k - 1) as nat);
        lemma_low_bits_step(mask, (k - 1) as nat);
        if affects(mask, k - 1) {
            let now = before.push((k - 1) as u32);
            lemma_number_round_trip((k - 1) as nat);
            assert(texts(now).drop_last() =~= texts(before));
            assert(texts(now).last() == number_text((k - 1) as nat));
        }
    }
}

/// A button reads back as it was written.
pub proof fn lemma_button_round_trip(mask: u64)
    requires
        mask != 0,
    ensures
        button_spec(button_text(mask)) == Ok::<u64, ParseError>(mask),
{
    let positions = set_bits(mask, 64);
    let text = button_text(mask);
    lemma_positions_round_trip(mask, 64);
    lemma_low_bits_step(mask, 0);
    if positions.len() == 0 {
        assert(texts(positions) =~= Seq::<Seq<u8>>::empty());
    }
    lemma_list_fields(positions);
    assert(inner(text) =~= list_text(positions));
    assert(text[0] == 40u8);
    assert(text.last() == 41u8);
}

/// The targets read back as they were written.
pub proof fn lemma_jolts_round_trip(joltage: Seq<u32>)
    requires
        joltage.len() >= 1,
    ensures
        jolts_spec(jolts_text(joltage)) == Ok::<Seq<u32>, ParseError>(joltage),
{
    let text = jolts_text(joltage);
    lemma_list_fields(joltage);
    lemma_numbers_round_trip(joltage);
    assert(inner(text) =~= list_text(joltage));
    assert(text[0] == 123u8);
    assert(text.last() == 125u8);
}

/// The buttons as they are written.
pub open spec fn button_texts(buttons: Seq<u64>) -> Seq<Seq<u8>> {
    Seq::new(buttons.len(), |i: int| button_text(buttons[i]))
}

/// A written button is a word.
proof fn lemma_button_is_word(mask: u64)
    ensures
        button_text(mask).len() > 0,
        forall|i: int| 0 <= i < button_text(mask).len() ==> !is_space(#[trigger] button_text(mask)[i]),
{
    lemma_list_bytes(set_bits(mask, 64));
    let list = list_text(set_bits(mask, 64));
    let text = button_text(mask);
    assert forall|i: int| 0 <= i < text.len() implies !is_space(#[trigger] text[i]) by {
        if 1 <= i < text.len() - 1 {
            assert(text[i] == list[i - 1]);
        }
    }
}

/// The written targets are a word.
proof fn lemma_jolts_is_word(joltage: Seq<u32>)
    ensures
        jolts_text(joltage).len() > 0,
        forall|i: int|
            0 <= i < jolts_text(joltage).len() ==> !is_space(#[trigger] jolts_text(joltage)[i]),
{
    lemma_list_bytes(joltage);
    let list = list_text(joltage);
    let text = jolts_text(joltage);
    assert forall|i: int| 0 <= i < text.len() implies !is_space(#[trigger] text[i]) by {
        if 1 <= i < text.len() - 1 {
            assert(text[i] == list[i - 1]);
        }
    }
}

/// The words of a written line up to button `k`: the diagram, then the
/// buttons.
proof fn lemma_words_upto(m: MachineView, k: nat)
    requires
        k <= m.buttons.len(),
    ensures
        words(line_upto(m, k)) == seq![diagram_text(m.light_count, m.lights)] + button_texts(
            m.buttons.take(k as int),
        ),
    decreases k,
{
    let diagram = diagram_text(m.light_count, m.lights);
    if k == 0 {
        assert forall|i: int| 0 <= i < diagram.len() implies !is_space(#[trigger] diagram[i]) by {
            if 1 <= i < diagram.len() - 1 {
                assert(diagram[i] == diagram_cells(m.light_count, m.lights)[i - 1]);
            }
        }
        lemma_words_single(diagram);
        assert(seq![diagram] =~= seq![diagram] + button_texts(m.buttons.take(0)));
    } else {
        lemma_words_upto(m, (k - 1) as nat);
        lemma_button_is_word(m.buttons[k - 1]);
        lemma_words_append(line_upto(m, (k - 1) as nat), button_text(m.buttons[k - 1]));
        assert((seq![diagram] + button_texts(m.buttons.take(k - 1))).push(
            button_text(m.buttons[k - 1]),
        ) =~= seq![diagram] + button_texts(m.buttons.take(k as int)));
    }
}

/// Written buttons read back as they were.
proof fn lemma_buttons_round_trip(buttons: Seq<u64>)
    requires
        forall|j: int| 0 <= j < buttons.len() ==> #[trigger] buttons[j] != 0,
    ensures
        buttons_spec(button_texts(buttons)) == Ok::<Seq<u64>, ParseError>(buttons),
    decreases buttons.len(),
{
    if buttons.len() > 0 {
        let init = buttons.drop_last();
        lemma_buttons_round_trip(init);
        assert(buttons.last() == buttons[buttons.len() - 1]);
        lemma_button_round_trip(buttons.last());
        assert(button_texts(buttons).drop_last() =~= button_texts(init));
        assert(button_texts(buttons).last() == button_text(buttons.last()));
        assert(init.push(buttons.last()) =~= buttons);
    } else {
        assert(buttons =~= Seq::<u64>::empty());
    }
}

/// Reading the line that describes a machine gives the machine back.
pub proof fn lemma_round_trip(m: MachineView)
    requires
        m.wf(),
    ensures
        machine_spec(line_text(m)) == Ok::<MachineView, ParseError>(m),
{
    let n = m.buttons.len();
    let diagram = diagram_text(m.light_count, m.lights);
    let jolts = jolts_text(m.joltage);
    lemma_words_upto(m, n);
    lemma_jolts_is_word(m.joltage);
    lemma_words_append(line_upto(m, n), jolts);
    assert(m.buttons.take(n as int) =~= m.buttons);
    let ws = words(line_text(m));
    assert(ws == (seq![diagram] + button_texts(m.buttons)).push(jolts));
    assert(ws.len() == n + 2);
    assert(ws[0] == diagram);
    assert(ws.last() == jolts);
    assert(ws.subrange(1, ws.len() - 1) =~= button_texts(m.buttons));
    lemma_diagram_round_trip(m.light_count, m.lights);
    lemma_buttons_round_trip(m.buttons);
    lemma_jolts_round_trip(m.joltage);
    assert(all_fit(m.buttons, smaller(m.light_count, m.joltage.len())));
}

} // verus!
