//! The print routine: its lines, what each does on a model of the machine,
//! and the proof that the routine writes the number in `eax` in base ten,
//! followed by a newline.

use crate::assembler::print_routine_text;
use crate::machine::word;
use crate::text::{decimal_text, digit_char, lemma_decimal_shape};
use vstd::prelude::*;

verus! {

/// One line of the print routine.
pub enum Line {
    /// `print_eax:`
    Entry,
    /// `push ecx`
    PushCount,
    /// `push edx`
    PushData,
    /// `mov edi, buffer + 11`
    PointAtEnd,
    /// `mov byte [edi], 0`
    Terminate,
    /// `mov ebx, 10`
    LoadTen,
    /// `.convert_loop:`
    Loop,
    /// `dec edi`
    StepBack,
    /// `xor edx, edx`
    ClearData,
    /// `div ebx`
    Divide,
    /// `add dl, '0'`
    MakeDigit,
    /// `mov [edi], dl`
    StoreDigit,
    /// `test eax, eax`
    TestQuotient,
    /// `jnz .convert_loop`
    Repeat,
    /// `mov eax, 4`
    CallWrite,
    /// `mov ebx, 1`
    ToStandardOutput,
    /// `mov ecx, edi`
    FromDigits,
    /// `mov edx, buffer + 11`
    EndOfDigits,
    /// `sub edx, edi`
    CountDigits,
    /// `int 0x80`
    System,
    /// `mov ecx, newline`
    FromNewline,
    /// `mov edx, 1`
    CountOne,
    /// `pop edx`
    PopData,
    /// `pop ecx`
    PopCount,
    /// `ret`
    Return,
}

/// The text of a line.
pub open spec fn line_text(line: Line) -> Seq<char> {
    match line {
        Line::Entry => "print_eax:\n"@,
        Line::PushCount => "push ecx\n"@,
        Line::PushData => "push edx\n"@,
        Line::PointAtEnd => "mov edi, buffer + 11\n"@,
        Line::Terminate => "mov byte [edi], 0\n"@,
        Line::LoadTen => "mov ebx, 10\n"@,
        Line::Loop => ".convert_loop:\n"@,
        Line::StepBack => "dec edi\n"@,
        Line::ClearData => "xor edx, edx\n"@,
        Line::Divide => "div ebx\n"@,
        Line::MakeDigit => "add dl, '0'\n"@,
        Line::StoreDigit => "mov [edi], dl\n"@,
        Line::TestQuotient => "test eax, eax\n"@,
        Line::Repeat => "jnz .convert_loop\n"@,
        Line::CallWrite => "mov eax, 4\n"@,
        Line::ToStandardOutput => "mov ebx, 1\n"@,
        Line::FromDigits => "mov ecx, edi\n"@,
        Line::EndOfDigits => "mov edx, buffer + 11\n"@,
        Line::CountDigits => "sub edx, edi\n"@,
        Line::System => "int 0x80\n"@,
        Line::FromNewline => "mov ecx, newline\n"@,
        Line::CountOne => "mov edx, 1\n"@,
        Line::PopData => "pop edx\n"@,
        Line::PopCount => "pop ecx\n"@,
        Line::Return => "ret\n"@,
    }
}

/// The lines of the print routine.
pub open spec fn routine() -> Seq<Line> {
    seq![
        Line::Entry,
        Line::PushCount,
        Line::PushData,
        Line::PointAtEnd,
        Line::Terminate,
        Line::LoadTen,
        Line::Loop,
        Line::StepBack,
        Line::ClearData,
        Line::Divide,
        Line::MakeDigit,
        Line::StoreDigit,
        Line::TestQuotient,
        Line::Repeat,
        Line::CallWrite,
        Line::ToStandardOutput,
        Line::FromDigits,
        Line::EndOfDigits,
        Line::CountDigits,
        Line::System,
        Line::CallWrite,
        Line::ToStandardOutput,
        Line::FromNewline,
        Line::CountOne,
        Line::System,
        Line::PopData,
        Line::PopCount,
        Line::Return,
    ]
}

/// The texts of `lines`, one after the other.
pub open spec fn lines_text(lines: Seq<Line>) -> Seq<char>
    decreases lines.len(),
{
    if lines.len() == 0 {
        Seq::empty()
    } else {
        lines_text(lines.drop_last()) + line_text(lines.last())
    }
}

/// Where the storage of the routine lies: the scratch buffer of twelve
/// bytes and the byte that holds the newline.
pub struct Layout {
    pub buffer: int,
    pub newline: int,
}

impl Layout {
    /// Whether the buffer lies within the addresses of the machine and
    /// the newline lies outside it.
    pub open spec fn valid(self) -> bool {
        0 <= self.buffer && self.buffer + 12 <= word() && 0 <= self.newline < word() && !(
        self.buffer <= self.newline < self.buffer + 12)
    }
}

/// The part of the machine that the routine works on.
pub struct Core {
    pub eax: int,
    pub ebx: int,
    pub ecx: int,
    pub edx: int,
    pub edi: int,
    /// Whether the last test found zero.
    pub zero: bool,
    pub stack: Seq<int>,
    /// The memory, byte by byte.
    pub bytes: Map<int, int>,
    /// The bytes written to the standard output so far.
    pub output: Seq<int>,
}

impl Core {
    /// The bytes of the memory from `from` up to, not including, `to`.
    pub open spec fn span(self, from: int, to: int) -> Seq<int> {
        Seq::new((to - from) as nat, |i: int| self.bytes[from + i])
    }

    /// The machine after the line `line`, which is no jump; nothing if it
    /// faults. A label does nothing.
    pub open spec fn perform(self, line: Line, layout: Layout) -> Option<Core> {
        match line {
            Line::Entry => Some(self),
            Line::Loop => Some(self),
            Line::PushCount => Some(Core { stack: self.stack.push(self.ecx), ..self }),
            Line::PushData => Some(Core { stack: self.stack.push(self.edx), ..self }),
            Line::PointAtEnd => Some(Core { edi: layout.buffer + 11, ..self }),
            Line::Terminate => Some(Core { bytes: self.bytes.insert(self.edi, 0), ..self }),
            Line::LoadTen => Some(Core { ebx: 10, ..self }),
            Line::StepBack => Some(Core { edi: (self.edi - 1) % word(), ..self }),
            Line::ClearData => Some(Core { edx: 0, ..self }),
            Line::Divide => {
                let dividend = self.edx * word() + self.eax;
                if self.ebx != 0 && 0 <= dividend / self.ebx < word() {
                    Some(Core { eax: dividend / self.ebx, edx: dividend % self.ebx, ..self })
                } else {
                    None
                }
            },
            Line::MakeDigit => Some(
                Core {
                    edx: self.edx - self.edx % 256 + (self.edx % 256 + '0' as int) % 256,
                    ..self
                },
            ),
            Line::StoreDigit => Some(
                Core { bytes: self.bytes.insert(self.edi, self.edx % 256), ..self },
            ),
            Line::TestQuotient => Some(Core { zero: self.eax == 0, ..self }),
            Line::CallWrite => Some(Core { eax: 4, ..self }),
            Line::ToStandardOutput => Some(Core { ebx: 1, ..self }),
            Line::FromDigits => Some(Core { ecx: self.edi, ..self }),
            Line::EndOfDigits => Some(Core { edx: layout.buffer + 11, ..self }),
            Line::CountDigits => Some(Core { edx: (self.edx - self.edi) % word(), ..self }),
            Line::System => if self.eax == 4 && self.ebx == 1 {
                Some(
                    Core {
                        eax: self.edx,
                        output: self.output + self.span(self.ecx, self.ecx + self.edx),
                        ..self
                    },
                )
            } else {
                None
            },
            Line::FromNewline => Some(Core { ecx: layout.newline, ..self }),
            Line::CountOne => Some(Core { edx: 1, ..self }),
            Line::PopData => if self.stack.len() > 0 {
                Some(Core { edx: self.stack.last(), stack: self.stack.drop_last(), ..self })
            } else {
                None
            },
            Line::PopCount => if self.stack.len() > 0 {
                Some(Core { ecx: self.stack.last(), stack: self.stack.drop_last(), ..self })
            } else {
                None
            },
            Line::Repeat => None,
            Line::Return => None,
        }
    }
}

/// The position of the loop label in the routine.
pub open spec fn loop_at() -> int {
    6
}

/// The position of the return in the routine.
pub open spec fn return_at() -> int {
    27
}

/// The routine at one of its lines.
pub struct At {
    pub line: int,
    pub core: Core,
}

/// One step of the routine: the jump goes back to the loop label unless
/// the last test found zero; every other line is performed and followed by
/// the next one. Nothing at the return, outside the routine, and at a
/// fault.
pub open spec fn step(now: At, layout: Layout) -> Option<At> {
    if now.line < 0 || now.line >= return_at() {
        None
    } else if routine()[now.line] is Repeat {
        if now.core.zero {
            Some(At { line: now.line + 1, core: now.core })
        } else {
            Some(At { line: loop_at(), core: now.core })
        }
    } else {
        match now.core.perform(routine()[now.line], layout) {
            Some(core) => Some(At { line: now.line + 1, core }),
            None => None,
        }
    }
}

/// `count` steps of the routine.
pub open spec fn steps(now: At, layout: Layout, count: nat) -> Option<At>
    decreases count,
{
    if count == 0 {
        Some(now)
    } else {
        match step(now, layout) {
            Some(next) => steps(next, layout, (count - 1) as nat),
            None => None,
        }
    }
}

/// Steps in two runs are the steps of the first run, then those of the
/// second.
pub proof fn lemma_steps_add(now: At, layout: Layout, first: nat, second: nat)
    ensures
        steps(now, layout, first + second) == match steps(now, layout, first) {
            Some(middle) => steps(middle, layout, second),
            None => None,
        },
    decreases first,
{
    if first > 0 {
        match step(now, layout) {
            Some(next) => {
                lemma_steps_add(next, layout, (first - 1) as nat, second);
            },
            None => {},
        }
    }
}

/// The bytes of a text of ASCII characters.
pub open spec fn bytes_of(text: Seq<char>) -> Seq<int> {
    Seq::new(text.len(), |i: int| text[i] as int)
}

/// The lines of the routine, one by one.
pub proof fn lemma_lines()
    ensures
        routine().len() == 28,
        routine()[0] == Line::Entry,
        routine()[1] == Line::PushCount,
        routine()[2] == Line::PushData,
        routine()[3] == Line::PointAtEnd,
        routine()[4] == Line::Terminate,
        routine()[5] == Line::LoadTen,
        routine()[6] == Line::Loop,
        routine()[7] == Line::StepBack,
        routine()[8] == Line::ClearData,
        routine()[9] == Line::Divide,
        routine()[10] == Line::MakeDigit,
        routine()[11] == Line::StoreDigit,
        routine()[12] == Line::TestQuotient,
        routine()[13] == Line::Repeat,
        routine()[14] == Line::CallWrite,
        routine()[15] == Line::ToStandardOutput,
        routine()[16] == Line::FromDigits,
        routine()[17] == Line::EndOfDigits,
        routine()[18] == Line::CountDigits,
        routine()[19] == Line::System,
        routine()[20] == Line::CallWrite,
        routine()[21] == Line::ToStandardOutput,
        routine()[22] == Line::FromNewline,
        routine()[23] == Line::CountOne,
        routine()[24] == Line::System,
        routine()[25] == Line::PopData,
        routine()[26] == Line::PopCount,
        routine()[27] == Line::Return,
{
}

/// One more step after some steps.
proof fn lemma_advance(start: At, layout: Layout, count: nat, now: At, next: At)
    requires
        steps(start, layout, count) == Some(now),
        step(now, layout) == Some(next),
    ensures
        steps(start, layout, count + 1) == Some(next),
{
    lemma_steps_add(start, layout, count, 1);
    reveal_with_fuel(steps, 2);
}

/// A number of 32 bits has ten digits at most.
pub proof fn lemma_ten_digits(n: nat)
    requires
        n < word(),
    ensures
        1 <= decimal_text(n).len() <= 10,
{
    reveal_with_fuel(power_of_ten, 11);
    assert(power_of_ten(10) == 10_000_000_000);
    lemma_digits_bound(n, 10);
}

/// The power of ten with the exponent `digits`.
pub open spec fn power_of_ten(digits: nat) -> nat
    decreases digits,
{
    if digits == 0 {
        1
    } else {
        10 * power_of_ten((digits - 1) as nat)
    }
}

/// A number below a power of ten has no more digits than its exponent.
proof fn lemma_digits_bound(n: nat, digits: nat)
    requires
        digits >= 1,
        n < power_of_ten(digits),
    ensures
        1 <= decimal_text(n).len() <= digits,
    decreases digits,
{
    reveal_with_fuel(power_of_ten, 2);
    if n >= 10 {
        assert(digits >= 2);
        assert(n / 10 < power_of_ten((digits - 1) as nat));
        lemma_digits_bound(n / 10, (digits - 1) as nat);
    }
}

/// Whether `after` differs from `before` in memory only by the digits of
/// `n` written just below the address `end`, with `edi` at the first
/// digit, and in the registers that the loop works with.
pub open spec fn converted(before: Core, after: Core, n: nat, end: int) -> bool {
    let digits = decimal_text(n);
    let from = end - digits.len();
    &&& after.edi == from
    &&& after.eax == 0
    &&& after.ebx == 10
    &&& after.zero
    &&& after.ecx == before.ecx
    &&& after.stack == before.stack
    &&& after.output == before.output
    &&& after.span(from, end) == bytes_of(digits)
    &&& same_outside(before, after, from, end)
}

/// Whether the memory of `after` is that of `before` outside the bytes
/// from `from` up to, not including, `to`.
pub open spec fn same_outside(before: Core, after: Core, from: int, to: int) -> bool {
    forall|address: int|
        !(from <= address < to) ==> #[trigger] after.bytes[address] == before.bytes[address]
}

/// One pass of the conversion loop: from the loop label to the jump, it
/// steps back, divides by ten, and stores the digit of the remainder.
proof fn lemma_loop_pass(core: Core, layout: Layout)
    requires
        0 <= core.eax < word(),
        core.ebx == 10,
        1 <= core.edi < word(),
    ensures
        steps(At { line: loop_at(), core }, layout, 7) == Some(
            At {
                line: 13,
                core: Core {
                    edi: core.edi - 1,
                    eax: core.eax / 10,
                    edx: core.eax % 10 + '0' as int,
                    bytes: core.bytes.insert(core.edi - 1, core.eax % 10 + '0' as int),
                    zero: core.eax / 10 == 0,
                    ..core
                },
            },
        ),
{
    lemma_lines();
    let n = core.eax;
    let end = core.edi;
    let start = At { line: loop_at(), core };
    let stepped = Core { edi: end - 1, ..core };
    let cleared = Core { edx: 0, ..stepped };
    let divided = Core { eax: n / 10, edx: n % 10, ..cleared };
    let made = Core { edx: n % 10 + '0' as int, ..divided };
    let stored = Core { bytes: made.bytes.insert(end - 1, n % 10 + '0' as int), ..made };
    let tested = Core { zero: n / 10 == 0, ..stored };
    assert((end - 1) % word() == end - 1);
    assert(0 * word() + n == n);
    assert(steps(start, layout, 0) == Some(start));
    assert(step(start, layout) == Some(At { line: 7, core }));
    lemma_advance(start, layout, 0, start, At { line: 7, core });
    assert(step(At { line: 7, core }, layout) == Some(At { line: 8, core: stepped }));
    lemma_advance(start, layout, 1, At { line: 7, core }, At { line: 8, core: stepped });
    assert(step(At { line: 8, core: stepped }, layout) == Some(At { line: 9, core: cleared }));
    lemma_advance(start, layout, 2, At { line: 8, core: stepped }, At { line: 9, core: cleared });
    assert(step(At { line: 9, core: cleared }, layout) == Some(At { line: 10, core: divided }));
    lemma_advance(
        start,
        layout,
        3,
        At { line: 9, core: cleared },
        At { line: 10, core: divided },
    );
    assert(step(At { line: 10, core: divided }, layout) == Some(At { line: 11, core: made }));
    lemma_advance(start, layout, 4, At { line: 10, core: divided }, At { line: 11, core: made });
    assert(step(At { line: 11, core: made }, layout) == Some(At { line: 12, core: stored }));
    lemma_advance(start, layout, 5, At { line: 11, core: made }, At { line: 12, core: stored });
    assert(step(At { line: 12, core: stored }, layout) == Some(At { line: 13, core: tested }));
    lemma_advance(start, layout, 6, At { line: 12, core: stored }, At { line: 13, core: tested });
}

/// The conversion loop writes the digits of the number in `eax` below the
/// address in `edi`, the last digit first, and leaves `edi` at the first
/// digit. The number of steps it takes is returned.
pub proof fn lemma_loop_converts(core: Core, layout: Layout) -> (count: nat)
    requires
        0 <= core.eax < word(),
        core.ebx == 10,
        decimal_text(core.eax as nat).len() <= core.edi < word(),
    ensures
        steps(At { line: loop_at(), core }, layout, count) matches Some(now) && now.line == 14
            && converted(core, now.core, core.eax as nat, core.edi),
    decreases core.eax,
{
    let n = core.eax as nat;
    let end = core.edi;
    let digit = n % 10;
    let quotient = n / 10;
    lemma_decimal_shape(n);
    lemma_lines();
    lemma_loop_pass(core, layout);
    let start = At { line: loop_at(), core };
    let tested = steps(start, layout, 7).unwrap().core;
    let at_jump = At { line: 13, core: tested };
    assert(digit_char(digit) as int == digit + '0' as int);
    if quotient == 0 {
        assert(step(at_jump, layout) == Some(At { line: 14, core: tested }));
        lemma_advance(start, layout, 7, at_jump, At { line: 14, core: tested });
        assert(decimal_text(n) == seq![digit_char(digit)]);
        assert(tested.span(end - 1, end) == bytes_of(decimal_text(n)));
        8
    } else {
        let again = At { line: loop_at(), core: tested };
        assert(step(at_jump, layout) == Some(again));
        lemma_advance(start, layout, 7, at_jump, again);
        assert(decimal_text(n) == decimal_text(quotient).push(digit_char(digit)));
        let rest = lemma_loop_converts(tested, layout);
        lemma_steps_add(start, layout, 8, rest);
        let done = steps(again, layout, rest).unwrap().core;
        let from = end - decimal_text(n).len();
        assert(converted(tested, done, quotient, end - 1));
        assert(decimal_text(n).len() == decimal_text(quotient).len() + 1);
        assert(done.edi == from);
        assert(same_outside(core, done, from, end)) by {
            assert forall|address: int| !(from <= address < end) implies #[trigger] done.bytes[address]
                == core.bytes[address] by {
                assert(done.bytes[address] == tested.bytes[address]);
                assert(tested.bytes[address] == core.bytes[address]);
            }
        }
        assert(done.span(from, end) == bytes_of(decimal_text(n))) by {
            let inner = done.span(from, end - 1);
            assert(inner == bytes_of(decimal_text(quotient)));
            assert forall|i: int| 0 <= i < decimal_text(n).len() implies done.span(from, end)[i]
                == bytes_of(decimal_text(n))[i] by {
                if i < decimal_text(n).len() - 1 {
                    assert(done.span(from, end)[i] == inner[i]);
                } else {
                    assert(done.bytes[end - 1] == tested.bytes[end - 1]);
                }
            }
        }
        8 + rest
    }
}

/// Whether `after` is what the routine leaves of `before`: the digits of
/// the number in `eax` and a newline are written, `ecx`, `edx` and the
/// stack are as they were.
pub open spec fn printed(before: Core, after: Core) -> bool {
    &&& after.output == before.output + bytes_of(decimal_text(before.eax as nat)) + seq![
        '\n' as int,
    ]
    &&& after.ecx == before.ecx
    &&& after.edx == before.edx
    &&& after.stack == before.stack
}

/// The start of the routine: it saves `ecx` and `edx`, points `edi` at
/// the last byte of the buffer, ends the text there, and loads ten.
proof fn lemma_routine_starts(core: Core, layout: Layout)
    ensures
        steps(At { line: 0, core }, layout, 6) == Some(
            At {
                line: 6,
                core: Core {
                    stack: core.stack.push(core.ecx).push(core.edx),
                    edi: layout.buffer + 11,
                    bytes: core.bytes.insert(layout.buffer + 11, 0),
                    ebx: 10,
                    ..core
                },
            },
        ),
{
    lemma_lines();
    let end = layout.buffer + 11;
    let start = At { line: 0, core };
    let a = Core { stack: core.stack.push(core.ecx), ..core };
    let b = Core { stack: a.stack.push(core.edx), ..a };
    let c = Core { edi: end, ..b };
    let d = Core { bytes: c.bytes.insert(end, 0), ..c };
    let e = Core { ebx: 10, ..d };
    assert(steps(start, layout, 0) == Some(start));
    assert(step(start, layout) == Some(At { line: 1, core }));
    lemma_advance(start, layout, 0, start, At { line: 1, core });
    assert(step(At { line: 1, core }, layout) == Some(At { line: 2, core: a }));
    lemma_advance(start, layout, 1, At { line: 1, core }, At { line: 2, core: a });
    assert(step(At { line: 2, core: a }, layout) == Some(At { line: 3, core: b }));
    lemma_advance(start, layout, 2, At { line: 2, core: a }, At { line: 3, core: b });
    assert(step(At { line: 3, core: b }, layout) == Some(At { line: 4, core: c }));
    lemma_advance(start, layout, 3, At { line: 3, core: b }, At { line: 4, core: c });
    assert(step(At { line: 4, core: c }, layout) == Some(At { line: 5, core: d }));
    lemma_advance(start, layout, 4, At { line: 4, core: c }, At { line: 5, core: d });
    assert(step(At { line: 5, core: d }, layout) == Some(At { line: 6, core: e }));
    lemma_advance(start, layout, 5, At { line: 5, core: d }, At { line: 6, core: e });
}

/// The end of the routine: it writes the bytes from `edi` up to the end
/// of the buffer, then the newline, and takes `edx` and `ecx` back from
/// the stack.
proof fn lemma_routine_ends(core: Core, layout: Layout, count: int, ecx: int, edx: int)
    requires
        layout.valid(),
        1 <= count <= 11,
        core.edi == layout.buffer + 11 - count,
        core.stack.len() >= 2,
        core.stack.last() == edx,
        core.stack.drop_last().last() == ecx,
        core.bytes[layout.newline] == '\n' as int,
    ensures
        steps(At { line: 14, core }, layout, 13) matches Some(now) && now.line == return_at()
            && now.core.output == core.output + core.span(core.edi, layout.buffer + 11) + seq![
            '\n' as int,
        ] && now.core.ecx == ecx && now.core.edx == edx && now.core.stack
            == core.stack.drop_last().drop_last(),
{
    lemma_lines();
    let end = layout.buffer + 11;
    let from = core.edi;
    let start = At { line: 14, core };
    let a = Core { eax: 4, ..core };
    let b = Core { ebx: 1, ..a };
    let c = Core { ecx: from, ..b };
    let d = Core { edx: end, ..c };
    let e = Core { edx: count, ..d };
    let f = Core { eax: count, output: core.output + core.span(from, end), ..e };
    let g = Core { eax: 4, ..f };
    let h = Core { ebx: 1, ..g };
    let i = Core { ecx: layout.newline, ..h };
    let j = Core { edx: 1, ..i };
    let k = Core { eax: 1, output: f.output + seq!['\n' as int], ..j };
    let l = Core { edx, stack: core.stack.drop_last(), ..k };
    let m = Core { ecx, stack: core.stack.drop_last().drop_last(), ..l };
    assert((end - from) % word() == count);
    assert(e.span(from, from + count) == core.span(from, end));
    assert(j.span(layout.newline, layout.newline + 1) == seq!['\n' as int]);
    assert(steps(start, layout, 0) == Some(start));
    assert(step(start, layout) == Some(At { line: 15, core: a }));
    lemma_advance(start, layout, 0, start, At { line: 15, core: a });
    assert(step(At { line: 15, core: a }, layout) == Some(At { line: 16, core: b }));
    lemma_advance(start, layout, 1, At { line: 15, core: a }, At { line: 16, core: b });
    assert(step(At { line: 16, core: b }, layout) == Some(At { line: 17, core: c }));
    lemma_advance(start, layout, 2, At { line: 16, core: b }, At { line: 17, core: c });
    assert(step(At { line: 17, core: c }, layout) == Some(At { line: 18, core: d }));
    lemma_advance(start, layout, 3, At { line: 17, core: c }, At { line: 18, core: d });
    assert(step(At { line: 18, core: d }, layout) == Some(At { line: 19, core: e }));
    lemma_advance(start, layout, 4, At { line: 18, core: d }, At { line: 19, core: e });
    assert(step(At { line: 19, core: e }, layout) == Some(At { line: 20, core: f }));
    lemma_advance(start, layout, 5, At { line: 19, core: e }, At { line: 20, core: f });
    assert(step(At { line: 20, core: f }, layout) == Some(At { line: 21, core: g }));
    lemma_advance(start, layout, 6, At { line: 20, core: f }, At { line: 21, core: g });
    assert(step(At { line: 21, core: g }, layout) == Some(At { line: 22, core: h }));
    lemma_advance(start, layout, 7, At { line: 21, core: g }, At { line: 22, core: h });
    assert(step(At { line: 22, core: h }, layout) == Some(At { line: 23, core: i }));
    lemma_advance(start, layout, 8, At { line: 22, core: h }, At { line: 23, core: i });
    assert(step(At { line: 23, core: i }, layout) == Some(At { line: 24, core: j }));
    lemma_advance(start, layout, 9, At { line: 23, core: i }, At { line: 24, core: j });
    assert(step(At { line: 24, core: j }, layout) == Some(At { line: 25, core: k }));
    lemma_advance(start, layout, 10, At { line: 24, core: j }, At { line: 25, core: k });
    assert(step(At { line: 25, core: k }, layout) == Some(At { line: 26, core: l }));
    lemma_advance(start, layout, 11, At { line: 25, core: k }, At { line: 26, core: l });
    assert(step(At { line: 26, core: l }, layout) == Some(At { line: 27, core: m }));
    lemma_advance(start, layout, 12, At { line: 26, core: l }, At { line: 27, core: m });
}

/// The print routine prints: run from its entry with a number in `eax`,
/// it reaches its return having written the number in base ten, without
/// leading zeros, and a newline, with `ecx`, `edx` and the stack as they
/// were. The number of steps it takes is returned.
pub proof fn lemma_routine_prints(core: Core, layout: Layout) -> (count: nat)
    requires
        layout.valid(),
        0 <= core.eax < word(),
        core.bytes[layout.newline] == '\n' as int,
    ensures
        steps(At { line: 0, core }, layout, count) matches Some(now) && now.line == return_at()
            && printed(core, now.core),
{
    let n = core.eax as nat;
    let end = layout.buffer + 11;
    lemma_ten_digits(n);
    lemma_routine_starts(core, layout);
    let entry = At { line: 0, core };
    let ready = steps(entry, layout, 6).unwrap().core;
    let looped = lemma_loop_converts(ready, layout);
    lemma_steps_add(entry, layout, 6, looped);
    let done = steps(At { line: 6, core: ready }, layout, looped).unwrap().core;
    let digits = decimal_text(n);
    assert(ready.stack.drop_last() == core.stack.push(core.ecx));
    assert(ready.stack.drop_last().drop_last() == core.stack);
    lemma_routine_ends(done, layout, digits.len() as int, core.ecx, core.edx);
    lemma_steps_add(entry, layout, 6 + looped, 13);
    6 + looped + 13
}

/// The text of the lines of the routine is the text that the generator
/// puts into the listing.
#[verifier::rlimit(60)]
pub proof fn lemma_routine_text()
    ensures
        lines_text(routine()) == print_routine_text(),
{
    reveal_with_fuel(lines_text, 30);
    assert(routine().len() == 28);
}

} // verus!
