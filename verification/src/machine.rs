//! The execution state machine: current position, direction pointer, codel
//! chooser and stack, the move-or-rotate retry loop with its eight-attempt
//! halt rule, and the dispatch of color transitions to stack effects.
//!
//! Input, output and the raw host call are performed by the caller: a step
//! that needs them reports what it needs, and the machine takes the outcome
//! back through one of the `provide_` methods.

use vstd::prelude::*;

use crate::codel::Codel;
use crate::codel::Direction;
use crate::codel::opposite_spec;
use crate::codel::rotate_spec;
use crate::grid::block_at;
use crate::grid::extremal_pos;
use crate::grid::gview;
use crate::grid::grid_wf;
use crate::grid::in_bounds;
use crate::grid::is_extremal;
use crate::grid::lemma_extremal_unique;
use crate::grid::next_pos;
use crate::grid::slide_end;
use crate::grid::adj;
use crate::grid::can_go_in_direction;
use crate::grid::get_farthest_codel;
use crate::pietcolor::Hue;
use crate::pietcolor::color_diff;
use crate::codel::effective_steps;
use crate::codel::opposite_n;
use crate::codel::rotate_n;
use crate::ops::Op;
use crate::ops::PietError;
use crate::ops::decode_spec;
use crate::ops::roll_spec;
use crate::ops::stack_after_add;
use crate::ops::stack_after_divide;
use crate::ops::stack_after_duplicate;
use crate::ops::stack_after_greater;
use crate::ops::stack_after_modulo;
use crate::ops::stack_after_multiply;
use crate::ops::stack_after_not;
use crate::ops::stack_after_pop;
use crate::ops::stack_after_subtract;
use crate::numparse::parse_i64;

verus! {

/// What the machine is waiting for from its caller, if anything.
#[derive(Debug, Clone, Copy, PartialEq, Eq, Structural)]
pub enum Pending {
    /// Ready for the next step.
    Idle,
    /// A number transition was reached: the caller must hand in one line of
    /// textual input.
    AwaitingNumber,
    /// A character transition was reached: the caller must hand in the next
    /// input character, if one is available.
    AwaitingChar,
    /// A raw host call was marshalled: the caller must perform it and hand
    /// in the returned value.
    AwaitingSyscall,
}

/// One marshalled argument of a raw host call.
#[derive(Debug, Clone, Copy, PartialEq, Eq, Structural)]
pub enum SyscallArg {
    /// Pass the value itself.
    Literal(i64),
    /// Pass the address of the stack's base storage offset by the value.
    StackOffset(i64),
}

/// What one step of the machine asks of its caller.
#[derive(Debug)]
pub enum StepOutcome {
    /// The retry ceiling was reached: the program has halted normally.
    Halted,
    /// The step completed with no outside effect.
    Continue,
    /// Print this value as decimal text.
    OutputNumber(i64),
    /// Print the character with this code point.
    OutputChar(u32),
    /// Read one line of textual input and hand it to `provide_number_line`.
    NeedNumberLine,
    /// Read one character and hand it to `provide_char`.
    NeedChar,
    /// Perform the raw host call and hand its result to
    /// `provide_syscall_result`; reject the instruction if the host has no
    /// such capability.
    SyscallRequest { num: i64, args: Vec<SyscallArg> },
}

/// Where the retry loop of one step ends: either a halt after eight blocked
/// attempts, or a move into `next`, entered from position `cur` with the
/// block size of `cur`'s block in hand.
pub enum Seek {
    Halted { cur: (int, int), dp: Direction, cc: Direction },
    Found { cur: (int, int), dp: Direction, cc: Direction, next: (int, int), size: int },
}

/// What block resolution reports from position (x, y): the block size and
/// the extremal position for a colored cell; size 0 and the end of the
/// straight White run for a White cell.
pub open spec fn resolve_pos(
    g: Seq<Seq<Codel>>,
    x: int,
    y: int,
    dp: Direction,
    cc: Direction,
) -> (int, (int, int)) {
    if g[y][x].color.hue == Hue::White {
        (0, slide_end(g, x, y, dp))
    } else {
        (block_at(g, x, y).len() as int, extremal_pos(g, x, y, dp, cc))
    }
}

/// Whether a step from the resolved extremum may land on (x, y): the cell
/// must exist and not be Black.
pub open spec fn can_enter(g: Seq<Seq<Codel>>, x: int, y: int) -> bool {
    in_bounds(g, x, y) && g[y][x].color.hue != Hue::Black
}

/// The retry loop: resolve the current block, try to step past its extremum
/// along `dp`; on failure move onto the extremum and alternately toggle the
/// codel chooser (even attempts) or rotate the direction pointer (odd
/// attempts); the eighth failed attempt halts the program.
pub open spec fn seek_from(
    g: Seq<Seq<Codel>>,
    x: int,
    y: int,
    dp: Direction,
    cc: Direction,
    attempts: nat,
) -> Seek
    decreases 8 - attempts,
{
    if attempts >= 8 {
        Seek::Halted { cur: (x, y), dp, cc }
    } else {
        let rs = resolve_pos(g, x, y, dp, cc);
        let np = next_pos(rs.1.0, rs.1.1, dp);
        if can_enter(g, np.0, np.1) {
            Seek::Found { cur: (x, y), dp, cc, next: np, size: rs.0 }
        } else {
            if attempts % 2 == 0 {
                seek_from(g, rs.1.0, rs.1.1, dp, opposite_spec(cc), attempts + 1)
            } else {
                seek_from(g, rs.1.0, rs.1.1, rotate_spec(dp), cc, attempts + 1)
            }
        }
    }
}

/// The exec counterpart of `Seek`.
pub enum SeekResult {
    Halted { cur: Codel, dp: Direction, cc: Direction },
    Found { cur: Codel, dp: Direction, cc: Direction, next: Codel, size: usize },
}

/// Runs the retry loop from `cur`, returning either the halt state or the
/// entered codel together with the block size of the block it was entered
/// from.
fn seek(picture: &Vec<Vec<Codel>>, cur: Codel, dp0: Direction, cc0: Direction) -> (r: SeekResult)
    requires
        grid_wf(gview(picture@)),
        in_bounds(gview(picture@), cur.x as int, cur.y as int),
        cur == gview(picture@)[cur.y as int][cur.x as int],
        cc0 == Direction::Left || cc0 == Direction::Right,
    ensures
        ({
            let g = gview(picture@);
            match seek_from(g, cur.x as int, cur.y as int, dp0, cc0, 0) {
                Seek::Halted { cur: sc, dp: sd, cc: sk } => r matches SeekResult::Halted {
                    cur: c,
                    dp: d,
                    cc: k,
                } && (c.x as int, c.y as int) == sc && c == g[sc.1][sc.0] && d == sd && k == sk
                    && in_bounds(g, sc.0, sc.1) && (k == Direction::Left || k == Direction::Right),
                Seek::Found { cur: sc, dp: sd, cc: sk, next: sn, size: sz } => r
                    matches SeekResult::Found { cur: c, dp: d, cc: k, next: n, size: s } && (
                c.x as int,
                c.y as int,
                ) == sc && c == g[sc.1][sc.0] && d == sd && k == sk && (n.x as int, n.y as int)
                    == sn && n == g[sn.1][sn.0] && s as int == sz && s as int <= i64::MAX && in_bounds(g, sc.0, sc.1)
                    && in_bounds(g, sn.0, sn.1) && (k == Direction::Left || k == Direction::Right),
            }
        }),
{
    let ghost g = gview(picture@);
    let mut c = cur;
    let mut dp = dp0;
    let mut cc = cc0;
    let mut attempts: u8 = 0;
    loop
        invariant
            g == gview(picture@),
            grid_wf(g),
            in_bounds(g, c.x as int, c.y as int),
            c == g[c.y as int][c.x as int],
            cc == Direction::Left || cc == Direction::Right,
            attempts < 8,
            seek_from(g, cur.x as int, cur.y as int, dp0, cc0, 0) == seek_from(
                g,
                c.x as int,
                c.y as int,
                dp,
                cc,
                attempts as nat,
            ),
        decreases 8 - attempts,
    {
        let (size, far) = get_farthest_codel(picture, c.x, c.y, dp, cc);
        proof {
            if g[c.y as int][c.x as int].color.hue != Hue::White {
                lemma_extremal_unique(
                    g,
                    c.x as int,
                    c.y as int,
                    dp,
                    cc,
                    (far.x as int, far.y as int),
                );
            }
            assert(resolve_pos(g, c.x as int, c.y as int, dp, cc) == (
                size as int,
                (far.x as int, far.y as int),
            ));
        }
        let (ok, nxt) = can_go_in_direction(picture, &far, dp);
        if ok {
            let ret = SeekResult::Found { cur: c, dp, cc, next: nxt, size };
            proof {
                if g[c.y as int][c.x as int].color.hue != Hue::White {
                    let b = block_at(g, c.x as int, c.y as int);
                    crate::grid::lemma_block_members(g, c.x as int, c.y as int);
                    assert forall|p: (int, int)| #[trigger] b.contains(p) implies in_bounds(
                        g,
                        p.0,
                        p.1,
                    ) by {}
                    crate::grid::lemma_block_bounded(g, b);
                }
                assert(seek_from(g, c.x as int, c.y as int, dp, cc, attempts as nat)
                    matches Seek::Found { cur: sc, dp: sd, cc: sk, next: sn, size: sz } && sc == (
                c.x as int,
                c.y as int,
                ) && sd == dp && sk == cc && sn == (nxt.x as int, nxt.y as int) && sz == size);
            }
            return ret;
        }
        if attempts % 2 == 0 {
            c = far;
            cc = cc.opposite();
        } else {
            c = far;
            dp = dp.rotate();
        }
        attempts = attempts + 1;
        if attempts >= 8 {
            let ret = SeekResult::Halted { cur: c, dp, cc };
            proof {
                assert(seek_from(g, c.x as int, c.y as int, dp, cc, 8) == Seek::Halted {
                    cur: (c.x as int, c.y as int),
                    dp,
                    cc,
                });
            }
            return ret;
        }
    }
}


/// The marshalled arguments and remaining stack after popping up to `k`
/// (type, value) pairs from `s`, topmost pair first. A pair whose type is
/// neither 1 nor 2 yields no argument; a lone value left when a pair is due
/// is consumed and discarded.
pub open spec fn marshal(s: Seq<i64>, k: int) -> (Seq<SyscallArg>, Seq<i64>)
    decreases s.len(),
{
    if k <= 0 || s.len() == 0 {
        (Seq::<SyscallArg>::empty(), s)
    } else if s.len() == 1 {
        (Seq::<SyscallArg>::empty(), Seq::<i64>::empty())
    } else {
        let ty = s.last();
        let v = s[s.len() - 2];
        let rec = marshal(s.drop_last().drop_last(), k - 1);
        if ty == 1 {
            (seq![SyscallArg::Literal(v)] + rec.0, rec.1)
        } else if ty == 2 {
            (seq![SyscallArg::StackOffset(v)] + rec.0, rec.1)
        } else {
            (rec.0, rec.1)
        }
    }
}

/// Whether `v` is the code point of a Unicode scalar value.
pub open spec fn valid_code_point(v: i64) -> bool {
    (0 <= v < 0xD800) || (0xE000 <= v <= 0x10FFFF)
}

/// The execution state: current codel, direction pointer, codel chooser,
/// the integer stack (last element on top), the running mode, and what the
/// machine is waiting for.
#[derive(Debug)]
pub struct Machine {
    pub cur: Codel,
    pub dp: Direction,
    pub cc: Direction,
    pub stack: Vec<i64>,
    pub debug: bool,
    pub pending: Pending,
}

/// The two states agree on every field, stacks compared by contents.
pub open spec fn unchanged(pre: Machine, post: Machine) -> bool {
    &&& post.cur == pre.cur
    &&& post.dp == pre.dp
    &&& post.cc == pre.cc
    &&& post.stack@ == pre.stack@
    &&& post.debug == pre.debug
    &&& post.pending == pre.pending
}

/// The frame of a completed move: the machine stands on `to` with the given
/// pointer and chooser, ready for the next step.
pub open spec fn moved_frame(
    pre: Machine,
    post: Machine,
    to: Codel,
    dp: Direction,
    cc: Direction,
) -> bool {
    &&& post.cur == to
    &&& post.dp == dp
    &&& post.cc == cc
    &&& post.debug == pre.debug
    &&& post.pending == Pending::Idle
}

/// What executing `op` does to the machine: the stack effect, the outcome
/// reported to the caller, and the waiting state for operations that need
/// input or a host call. `size` is the block size operand for push; `to` is
/// the codel being entered.
pub open spec fn op_rel(
    pre: Machine,
    post: Machine,
    r: Result<StepOutcome, PietError>,
    op: Op,
    size: int,
    to: Codel,
    dp: Direction,
    cc: Direction,
) -> bool {
    let s = pre.stack@;
    match op {
        Op::Push => moved_frame(pre, post, to, dp, cc) && post.stack@ == s.push(size as i64) && r
            == Ok::<StepOutcome, PietError>(StepOutcome::Continue),
        Op::Pop => moved_frame(pre, post, to, dp, cc) && post.stack@ == stack_after_pop(s) && r
            == Ok::<StepOutcome, PietError>(StepOutcome::Continue),
        Op::Add => moved_frame(pre, post, to, dp, cc) && post.stack@ == stack_after_add(s) && r
            == Ok::<StepOutcome, PietError>(StepOutcome::Continue),
        Op::Subtract => moved_frame(pre, post, to, dp, cc) && post.stack@ == stack_after_subtract(s)
            && r == Ok::<StepOutcome, PietError>(StepOutcome::Continue),
        Op::Multiply => moved_frame(pre, post, to, dp, cc) && post.stack@ == stack_after_multiply(s)
            && r == Ok::<StepOutcome, PietError>(StepOutcome::Continue),
        Op::Divide => if s.len() >= 2 && s.last() == 0 {
            r == Err::<StepOutcome, PietError>(PietError::DivisionByZero) && unchanged(pre, post)
        } else {
            moved_frame(pre, post, to, dp, cc) && post.stack@ == if s.len() >= 2 {
                stack_after_divide(s)
            } else {
                s
            } && r == Ok::<StepOutcome, PietError>(StepOutcome::Continue)
        },
        Op::Modulo => if s.len() >= 2 && s.last() == 0 {
            r == Err::<StepOutcome, PietError>(PietError::ModuloByZero) && unchanged(pre, post)
        } else {
            moved_frame(pre, post, to, dp, cc) && post.stack@ == if s.len() >= 2 {
                stack_after_modulo(s)
            } else {
                s
            } && r == Ok::<StepOutcome, PietError>(StepOutcome::Continue)
        },
        Op::Not => moved_frame(pre, post, to, dp, cc) && post.stack@ == stack_after_not(s) && r
            == Ok::<StepOutcome, PietError>(StepOutcome::Continue),
        Op::Greater => moved_frame(pre, post, to, dp, cc) && post.stack@ == stack_after_greater(s)
            && r == Ok::<StepOutcome, PietError>(StepOutcome::Continue),
        Op::Pointer => {
            &&& post.cur == to
            &&& post.cc == cc
            &&& post.debug == pre.debug
            &&& post.pending == Pending::Idle
            &&& r == Ok::<StepOutcome, PietError>(StepOutcome::Continue)
            &&& if s.len() > 0 {
                post.dp == rotate_n(dp, effective_steps(s.last())) && post.stack@ == s.drop_last()
            } else {
                post.dp == dp && post.stack@ == s
            }
        },
        Op::Switch => {
            &&& post.cur == to
            &&& post.dp == dp
            &&& post.debug == pre.debug
            &&& post.pending == Pending::Idle
            &&& r == Ok::<StepOutcome, PietError>(StepOutcome::Continue)
            &&& if s.len() > 0 {
                post.cc == opposite_n(cc, effective_steps(s.last())) && post.stack@ == s.drop_last()
            } else {
                post.cc == cc && post.stack@ == s
            }
        },
        Op::Duplicate => moved_frame(pre, post, to, dp, cc) && post.stack@ == stack_after_duplicate(
            s,
        ) && r == Ok::<StepOutcome, PietError>(StepOutcome::Continue),
        Op::Roll => if s.len() >= 2 {
            ({
                let count = s.last();
                let depth = s[s.len() - 2];
                let rest = s.drop_last().drop_last();
                if 0 <= depth && depth <= rest.len() {
                    moved_frame(pre, post, to, dp, cc) && post.stack@ == roll_spec(
                        rest,
                        count as int,
                        depth as int,
                    ) && r == Ok::<StepOutcome, PietError>(StepOutcome::Continue)
                } else {
                    r == Err::<StepOutcome, PietError>(PietError::StackTooShallow) && unchanged(
                        pre,
                        post,
                    )
                }
            })
        } else {
            moved_frame(pre, post, to, dp, cc) && post.stack@ == s && r == Ok::<StepOutcome, PietError>(StepOutcome::Continue)
        },
        Op::InNumber => post.cur == to && post.dp == dp && post.cc == cc && post.debug == pre.debug
            && post.pending == Pending::AwaitingNumber && post.stack@ == s && r == Ok::<StepOutcome, PietError>(StepOutcome::NeedNumberLine),
        Op::InChar => post.cur == to && post.dp == dp && post.cc == cc && post.debug == pre.debug
            && post.pending == Pending::AwaitingChar && post.stack@ == s && r == Ok::<StepOutcome, PietError>(StepOutcome::NeedChar),
        Op::OutNumber => moved_frame(pre, post, to, dp, cc) && if s.len() > 0 {
            post.stack@ == s.drop_last() && r == Ok::<StepOutcome, PietError>(StepOutcome::OutputNumber(s.last()))
        } else {
            post.stack@ == s && r == Ok::<StepOutcome, PietError>(StepOutcome::Continue)
        },
        Op::OutChar => moved_frame(pre, post, to, dp, cc) && if s.len() > 0 {
            post.stack@ == s.drop_last() && if valid_code_point(s.last()) {
                r == Ok::<StepOutcome, PietError>(StepOutcome::OutputChar(s.last() as u32))
            } else {
                r == Ok::<StepOutcome, PietError>(StepOutcome::Continue)
            }
        } else {
            post.stack@ == s && r == Ok::<StepOutcome, PietError>(StepOutcome::Continue)
        },
        Op::NoOp => moved_frame(pre, post, to, dp, cc) && post.stack@ == s && r == Ok::<StepOutcome, PietError>(StepOutcome::Continue),
        Op::Syscall => {
            &&& post.cur == to
            &&& post.dp == dp
            &&& post.cc == cc
            &&& post.debug == pre.debug
            &&& if s.len() == 0 {
                post.pending == Pending::Idle && post.stack@ == s && r == Ok::<StepOutcome, PietError>(StepOutcome::Continue)
            } else {
                ({
                    let num = s.last();
                    let s1 = s.drop_last();
                    if s1.len() == 0 {
                        post.pending == Pending::AwaitingSyscall && post.stack@ == s1 && (r
                            matches Ok(StepOutcome::SyscallRequest { num: n, args }) && n == num
                            && args@ == Seq::<SyscallArg>::empty())
                    } else {
                        ({
                            let m = marshal(s1.drop_last(), s1.last() as int);
                            post.pending == Pending::AwaitingSyscall && post.stack@ == m.1 && (r
                                matches Ok(StepOutcome::SyscallRequest { num: n, args }) && n == num
                                && args@ == m.0)
                        })
                    }
                })
            }
        },
    }
}

/// One step of the machine: what the retry loop decides, and on a move,
/// what the decoded transition does.
pub open spec fn step_rel(
    g: Seq<Seq<Codel>>,
    pre: Machine,
    post: Machine,
    r: Result<StepOutcome, PietError>,
) -> bool {
    match seek_from(g, pre.cur.x as int, pre.cur.y as int, pre.dp, pre.cc, 0) {
        Seek::Halted { cur, dp, cc } => {
            &&& (post.cur.x as int, post.cur.y as int) == cur
            &&& post.cur == g[cur.1][cur.0]
            &&& post.dp == dp
            &&& post.cc == cc
            &&& post.stack@ == pre.stack@
            &&& post.debug == pre.debug
            &&& post.pending == Pending::Idle
            &&& r == Ok::<StepOutcome, PietError>(StepOutcome::Halted)
        },
        Seek::Found { cur, dp, cc, next, size } => {
            let from = g[cur.1][cur.0];
            let to = g[next.1][next.0];
            let key = color_diff(from.color, to.color);
            match decode_spec(key.0, key.1, from.color.hue) {
                None => r == Err::<StepOutcome, PietError>(PietError::BadTransition) && unchanged(
                    pre,
                    post,
                ),
                Some(op) => op_rel(pre, post, r, op, size, to, dp, cc),
            }
        },
    }
}


impl Machine {
    /// Whether the machine may run on the grid `g`: the grid is well formed
    /// and the machine stands on one of its codels with a Left/Right codel
    /// chooser.
    pub open spec fn valid_for(self, g: Seq<Seq<Codel>>) -> bool {
        &&& grid_wf(g)
        &&& in_bounds(g, self.cur.x as int, self.cur.y as int)
        &&& self.cur == g[self.cur.y as int][self.cur.x as int]
        &&& self.cc == Direction::Left || self.cc == Direction::Right
    }

    /// A machine at program start: standing on `start`, direction pointer
    /// Right, codel chooser Left, empty stack.
    pub fn new(start: Codel, debug: bool) -> (m: Machine)
        ensures
            m.cur == start,
            m.dp == Direction::Right,
            m.cc == Direction::Left,
            m.stack@ == Seq::<i64>::empty(),
            m.debug == debug,
            m.pending == Pending::Idle,
    {
        Machine {
            cur: start,
            dp: Direction::Right,
            cc: Direction::Left,
            stack: Vec::new(),
            debug,
            pending: Pending::Idle,
        }
    }

    /// Performs one step: runs the retry loop, and on a move decodes the
    /// transition and applies its effect. Reports a halt, an output value,
    /// a needed input, a marshalled host call, or a fatal error, which
    /// leaves the machine untouched.
    #[verifier::rlimit(80)]
    pub fn step(&mut self, picture: &Vec<Vec<Codel>>) -> (r: Result<StepOutcome, PietError>)
        requires
            old(self).valid_for(gview(picture@)),
            old(self).pending == Pending::Idle,
        ensures
            step_rel(gview(picture@), *old(self), *final(self), r),
            final(self).valid_for(gview(picture@)),
            final(self).debug == old(self).debug,
    {
        let ghost g = gview(picture@);
        match seek(picture, self.cur, self.dp, self.cc) {
            SeekResult::Halted { cur, dp, cc } => {
                self.cur = cur;
                self.dp = dp;
                self.cc = cc;
                Ok(StepOutcome::Halted)
            },
            SeekResult::Found { cur, dp, cc, next, size } => {
                let key = cur.diff_to(&next);
                let op = match crate::ops::decode(key.0, key.1, cur.color.hue) {
                    Some(o) => o,
                    None => {
                        return Err(PietError::BadTransition);
                    },
                };
                // fatal conditions are tested before anything changes
                match op {
                    Op::Divide => {
                        if self.stack.len() >= 2 && self.stack[self.stack.len() - 1] == 0 {
                            return Err(PietError::DivisionByZero);
                        }
                    },
                    Op::Modulo => {
                        if self.stack.len() >= 2 && self.stack[self.stack.len() - 1] == 0 {
                            return Err(PietError::ModuloByZero);
                        }
                    },
                    Op::Roll => {
                        if self.stack.len() >= 2 {
                            let depth = self.stack[self.stack.len() - 2];
                            let restlen = self.stack.len() - 2;
                            if depth < 0 || depth as u64 > restlen as u64 {
                                return Err(PietError::StackTooShallow);
                            }
                        }
                    },
                    _ => {},
                }
                self.cur = next;
                self.dp = dp;
                self.cc = cc;
                match op {
                    Op::Push => {
                        self.stack.push(size as i64);
                        Ok(StepOutcome::Continue)
                    },
                    Op::Pop => {
                        crate::ops::op_pop(&mut self.stack);
                        Ok(StepOutcome::Continue)
                    },
                    Op::Add => {
                        crate::ops::op_add(&mut self.stack);
                        Ok(StepOutcome::Continue)
                    },
                    Op::Subtract => {
                        crate::ops::op_subtract(&mut self.stack);
                        Ok(StepOutcome::Continue)
                    },
                    Op::Multiply => {
                        crate::ops::op_multiply(&mut self.stack);
                        Ok(StepOutcome::Continue)
                    },
                    Op::Divide => {
                        match crate::ops::op_divide(&mut self.stack) {
                            Ok(()) => Ok(StepOutcome::Continue),
                            Err(e) => Err(e),
                        }
                    },
                    Op::Modulo => {
                        match crate::ops::op_modulo(&mut self.stack) {
                            Ok(()) => Ok(StepOutcome::Continue),
                            Err(e) => Err(e),
                        }
                    },
                    Op::Not => {
                        crate::ops::op_not(&mut self.stack);
                        Ok(StepOutcome::Continue)
                    },
                    Op::Greater => {
                        crate::ops::op_greater(&mut self.stack);
                        Ok(StepOutcome::Continue)
                    },
                    Op::Pointer => {
                        if self.stack.len() > 0 {
                            let a = self.stack.pop().unwrap();
                            self.dp = crate::codel::rotate_steps(dp, a);
                        }
                        Ok(StepOutcome::Continue)
                    },
                    Op::Switch => {
                        if self.stack.len() > 0 {
                            let a = self.stack.pop().unwrap();
                            self.cc = crate::codel::opposite_steps(cc, a);
                            proof {
                                crate::codel::lemma_opposite_n_keeps_lr(
                                    cc,
                                    crate::codel::effective_steps(a),
                                );
                            }
                        }
                        Ok(StepOutcome::Continue)
                    },
                    Op::Duplicate => {
                        crate::ops::op_duplicate(&mut self.stack);
                        Ok(StepOutcome::Continue)
                    },
                    Op::Roll => {
                        if self.stack.len() >= 2 {
                            let count = self.stack.pop().unwrap();
                            let depth = self.stack.pop().unwrap();
                            match crate::ops::roll(&mut self.stack, count, depth) {
                                Ok(()) => Ok(StepOutcome::Continue),
                                Err(e) => Err(e),
                            }
                        } else {
                            Ok(StepOutcome::Continue)
                        }
                    },
                    Op::InNumber => {
                        self.pending = Pending::AwaitingNumber;
                        Ok(StepOutcome::NeedNumberLine)
                    },
                    Op::InChar => {
                        self.pending = Pending::AwaitingChar;
                        Ok(StepOutcome::NeedChar)
                    },
                    Op::OutNumber => {
                        if self.stack.len() > 0 {
                            let v = self.stack.pop().unwrap();
                            Ok(StepOutcome::OutputNumber(v))
                        } else {
                            Ok(StepOutcome::Continue)
                        }
                    },
                    Op::OutChar => {
                        if self.stack.len() > 0 {
                            let v = self.stack.pop().unwrap();
                            if (0 <= v && v < 0xD800) || (0xE000 <= v && v <= 0x10FFFF) {
                                Ok(StepOutcome::OutputChar(v as u32))
                            } else {
                                Ok(StepOutcome::Continue)
                            }
                        } else {
                            Ok(StepOutcome::Continue)
                        }
                    },
                    Op::NoOp => Ok(StepOutcome::Continue),
                    Op::Syscall => {
                        if self.stack.len() == 0 {
                            Ok(StepOutcome::Continue)
                        } else {
                            let num = self.stack.pop().unwrap();
                            if self.stack.len() == 0 {
                                self.pending = Pending::AwaitingSyscall;
                                Ok(StepOutcome::SyscallRequest { num, args: Vec::new() })
                            } else {
                                let cnt = self.stack.pop().unwrap();
                                let args = marshal_args(&mut self.stack, cnt);
                                self.pending = Pending::AwaitingSyscall;
                                Ok(StepOutcome::SyscallRequest { num, args })
                            }
                        }
                    },
                }
            },
        }
    }

    /// Hands the machine the line of input a number transition asked for.
    /// The line is trimmed of trailing whitespace and parsed as a decimal
    /// integer; a value that parses is pushed, one that does not is skipped,
    /// or is fatal when the machine runs in debug mode.
    pub fn provide_number_line(&mut self, line: &[u8]) -> (r: Result<(), PietError>)
        requires
            old(self).pending == Pending::AwaitingNumber,
        ensures
            final(self).cur == old(self).cur,
            final(self).dp == old(self).dp,
            final(self).cc == old(self).cc,
            final(self).debug == old(self).debug,
            final(self).pending == Pending::Idle,
            ({
                match parse_i64(line@) {
                    Some(v) => final(self).stack@ == old(self).stack@.push(v) && r == Ok::<
                        (),
                        PietError,
                    >(()),
                    None => final(self).stack@ == old(self).stack@ && r == if old(self).debug {
                        Err::<(), PietError>(PietError::BadNumberInput)
                    } else {
                        Ok::<(), PietError>(())
                    },
                }
            }),
    {
        self.pending = Pending::Idle;
        match crate::numparse::parse_number(line) {
            Some(v) => {
                self.stack.push(v);
                Ok(())
            },
            None => {
                if self.debug {
                    Err(PietError::BadNumberInput)
                } else {
                    Ok(())
                }
            },
        }
    }

    /// Hands the machine the character a character transition asked for, or
    /// nothing if the input is exhausted even after one rewind; its code
    /// point is pushed.
    pub fn provide_char(&mut self, c: Option<u32>)
        requires
            old(self).pending == Pending::AwaitingChar,
        ensures
            final(self).cur == old(self).cur,
            final(self).dp == old(self).dp,
            final(self).cc == old(self).cc,
            final(self).debug == old(self).debug,
            final(self).pending == Pending::Idle,
            final(self).stack@ == match c {
                Some(v) => old(self).stack@.push(v as i64),
                None => old(self).stack@,
            },
    {
        self.pending = Pending::Idle;
        match c {
            Some(v) => {
                self.stack.push(v as i64);
            },
            None => {},
        }
    }

    /// Hands the machine the value the raw host call returned; it is pushed.
    pub fn provide_syscall_result(&mut self, v: i64)
        requires
            old(self).pending == Pending::AwaitingSyscall,
        ensures
            final(self).cur == old(self).cur,
            final(self).dp == old(self).dp,
            final(self).cc == old(self).cc,
            final(self).debug == old(self).debug,
            final(self).pending == Pending::Idle,
            final(self).stack@ == old(self).stack@.push(v),
    {
        self.pending = Pending::Idle;
        self.stack.push(v);
    }
}

/// Pops up to `k` (type, value) pairs off the stack and builds the host-call
/// argument list they describe.
fn marshal_args(stack: &mut Vec<i64>, k: i64) -> (args: Vec<SyscallArg>)
    ensures
        args@ == marshal(old(stack)@, k as int).0,
        final(stack)@ == marshal(old(stack)@, k as int).1,
{
    let ghost s0 = stack@;
    let ghost ki = k as int;
    let mut args: Vec<SyscallArg> = Vec::new();
    let mut remaining = k;
    while remaining > 0 && stack.len() >= 2
        invariant
            remaining <= k,
            marshal(s0, ki).0 == args@ + marshal(stack@, remaining as int).0,
            marshal(s0, ki).1 == marshal(stack@, remaining as int).1,
        decreases remaining,
    {
        let ghost sb = stack@;
        let ty = stack.pop().unwrap();
        let v = stack.pop().unwrap();
        if ty == 1 {
            args.push(SyscallArg::Literal(v));
        } else if ty == 2 {
            args.push(SyscallArg::StackOffset(v));
        }
        proof {
            assert(sb.drop_last().drop_last() == stack@);
            assert(marshal(sb, remaining as int).0 == (if ty == 1 {
                seq![SyscallArg::Literal(v)] + marshal(stack@, remaining - 1).0
            } else if ty == 2 {
                seq![SyscallArg::StackOffset(v)] + marshal(stack@, remaining - 1).0
            } else {
                marshal(stack@, remaining - 1).0
            }));
            if ty == 1 || ty == 2 {
                assert(args@ + marshal(stack@, remaining - 1).0 =~= args@.drop_last() + marshal(
                    sb,
                    remaining as int,
                ).0);
            }
        }
        remaining = remaining - 1;
    }
    if remaining > 0 && stack.len() == 1 {
        stack.pop();
        proof {
            assert(marshal(s0, ki).0 =~= args@);
        }
    } else {
        proof {
            if remaining <= 0 {
                assert(marshal(stack@, remaining as int).0 =~= Seq::<SyscallArg>::empty());
                assert(marshal(stack@, remaining as int).1 == stack@);
            } else {
                assert(stack@.len() == 0);
                assert(marshal(stack@, remaining as int).0 =~= Seq::<SyscallArg>::empty());
            }
            assert(marshal(s0, ki).0 =~= args@);
        }
    }
    args
}


/// A program standing on a single chromatic codel whose four neighbors are
/// all Black or off the grid has no legal move: every one of the eight
/// blocked attempts fails, so the machine halts where it stands without
/// executing any instruction, its direction pointer and codel chooser back
/// in their starting state.
pub proof fn lemma_isolated_codel_halts(
    g: Seq<Seq<Codel>>,
    x: int,
    y: int,
    dp: Direction,
    cc: Direction,
)
    requires
        grid_wf(g),
        in_bounds(g, x, y),
        g[y][x].color.hue != Hue::White,
        g[y][x].color.hue != Hue::Black,
        forall|p: (int, int)| #[trigger] adj(x, y, p.0, p.1) ==> !in_bounds(g, p.0, p.1) || g[p.1][p.0].color.hue
            == Hue::Black,
    ensures
        seek_from(g, x, y, dp, cc, 0) == (Seek::Halted { cur: (x, y), dp, cc }),
{
    let v = Set::<(int, int)>::empty().insert((x, y));
    let b = block_at(g, x, y);
    crate::grid::lemma_block_members(g, x, y);
    assert forall|p: (int, int)| b.contains(p) implies v.contains(p) by {
        assert forall|a: int, bb: int, c: int, d: int|
            v.contains((a, bb)) && #[trigger] adj(a, bb, c, d) && in_bounds(g, c, d)
                && g[d][c].color == g[y][x].color implies v.contains((c, d)) by {
            let q = (c, d);
            assert(adj(x, y, q.0, q.1));
            assert(g[d][c].color.hue == Hue::Black);
            assert(false);
        }
        crate::grid::lemma_closed_contains_reachable(g, x, y, v, p.0, p.1);
    }
    assert(b =~= v);
    assert(b.len() == 1);
    assert forall|d: Direction, k: Direction| #[trigger] extremal_pos(g, x, y, d, k) == (
        x,
        y,
    ) by {
        assert(is_extremal(g, b, (x, y), d, k)) by {
            assert forall|q: (int, int)| #[trigger] b.contains(q) && q != (x, y) implies false by {}
        }
        lemma_extremal_unique(g, x, y, d, k, (x, y));
    }
    assert forall|d: Direction| !can_enter(
        g,
        #[trigger] next_pos(x, y, d).0,
        next_pos(x, y, d).1,
    ) by {
        let np = next_pos(x, y, d);
        assert(adj(x, y, np.0, np.1));
        if in_bounds(g, np.0, np.1) {
            assert(g[np.1][np.0].color.hue == Hue::Black);
        }
    }
    assert forall|d: Direction, k: Direction, a: nat|
        a < 8 implies #[trigger] seek_from(g, x, y, d, k, a) == seek_from(
        g,
        x,
        y,
        if a % 2 == 0 { d } else { rotate_spec(d) },
        if a % 2 == 0 { opposite_spec(k) } else { k },
        a + 1,
    ) by {
        assert(resolve_pos(g, x, y, d, k) == (1int, (x, y)));
    }
    assert(seek_from(g, x, y, dp, cc, 8) == (Seek::Halted { cur: (x, y), dp, cc }));
    let cc1 = opposite_spec(cc);
    let dp1 = rotate_spec(dp);
    let dp2 = rotate_spec(dp1);
    let dp3 = rotate_spec(dp2);
    let dp4 = rotate_spec(dp3);
    crate::codel::lemma_rotate_four_opposite_twice(dp);
    crate::codel::lemma_rotate_four_opposite_twice(cc);
    assert(dp4 == dp && opposite_spec(cc1) == cc);
    assert(seek_from(g, x, y, dp, cc, 0) == seek_from(g, x, y, dp, cc1, 1));
    assert(seek_from(g, x, y, dp, cc1, 1) == seek_from(g, x, y, dp1, cc1, 2));
    assert(seek_from(g, x, y, dp1, cc1, 2) == seek_from(g, x, y, dp1, cc, 3));
    assert(seek_from(g, x, y, dp1, cc, 3) == seek_from(g, x, y, dp2, cc, 4));
    assert(seek_from(g, x, y, dp2, cc, 4) == seek_from(g, x, y, dp2, cc1, 5));
    assert(seek_from(g, x, y, dp2, cc1, 5) == seek_from(g, x, y, dp3, cc1, 6));
    assert(seek_from(g, x, y, dp3, cc1, 6) == seek_from(g, x, y, dp3, cc, 7));
    assert(seek_from(g, x, y, dp3, cc, 7) == seek_from(g, x, y, dp4, cc, 8));
    assert(seek_from(g, x, y, dp4, cc, 8) == (Seek::Halted { cur: (x, y), dp, cc }));
}

} // verus!
