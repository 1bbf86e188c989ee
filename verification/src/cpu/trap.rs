//! Trap control.

use crate::cpu::context::{Context, ContextView};
use vstd::prelude::*;

verus! {

/// Which traps are let through, how many were, and the contexts they came with.
pub struct TrapCtl {
    pub active: bool,
    pub hw_mask: u32,
    pub sw_mask: u32,
    pub nest: usize,
    pub frame: Option<Context>,
    pub stack: Vec<Context>,
    pub irq_on: bool,
    pub suppressed: bool,
}

/// What trap control stands for.
#[verifier::ext_equal]
pub ghost struct TrapView {
    pub active: bool,
    pub hw_mask: u32,
    pub sw_mask: u32,
    pub nest: usize,
    pub frame: Option<ContextView>,
    pub stack: Seq<ContextView>,
    pub irq_on: bool,
    pub suppressed: bool,
}

/// What an optional context stands for.
pub open spec fn frame_view(f: Option<Context>) -> Option<ContextView> {
    match f {
        Some(c) => Some(c@),
        None => None,
    }
}

impl View for TrapCtl {
    type V = TrapView;

    open spec fn view(&self) -> TrapView {
        TrapView {
            active: self.active,
            hw_mask: self.hw_mask,
            sw_mask: self.sw_mask,
            nest: self.nest,
            frame: frame_view(self.frame),
            stack: self.stack@.map_values(|c: Context| c@),
            irq_on: self.irq_on,
            suppressed: self.suppressed,
        }
    }
}

impl TrapView {
    /// The trap was taken with context `c`.
    pub open spec fn dispatched(self, c: ContextView) -> TrapView {
        TrapView { frame: Some(c), nest: self.nest.wrapping_add(1), ..self }
    }

    /// The masks let `vector` through: the first eight are hardware's, the next eight
    /// software's.
    pub open spec fn lets(self, vector: usize) -> bool {
        if vector <= 7 {
            self.hw_mask & (1u32 << vector) != 0
        } else if vector <= 15 {
            self.sw_mask & (1u32 << ((vector - 8) as usize)) != 0
        } else {
            false
        }
    }
}

impl TrapCtl {
    pub fn new() -> (r: Self)
        ensures
            r@ == (TrapView {
                active: true,
                hw_mask: 0,
                sw_mask: 0,
                nest: 0,
                frame: None,
                stack: Seq::empty(),
                irq_on: true,
                suppressed: false,
            }),
    {
        let r = TrapCtl {
            active: true,
            hw_mask: 0,
            sw_mask: 0,
            nest: 0,
            frame: None,
            stack: Vec::new(),
            irq_on: true,
            suppressed: false,
        };
        assert(r@.stack =~= Seq::empty());
        r
    }

    /// Sets the software mask and the hardware mask.
    pub fn configure(&mut self, a: u32, b: u32)
        ensures
            final(self)@ == (TrapView { sw_mask: a, hw_mask: b, ..old(self)@ }),
    {
        self.sw_mask = a;
        self.hw_mask = b;
    }

    pub fn hw(&self) -> (r: u32)
        ensures
            r == self@.hw_mask,
    {
        self.hw_mask
    }

    pub fn sw(&self) -> (r: u32)
        ensures
            r == self@.sw_mask,
    {
        self.sw_mask
    }

    pub fn in_handler(&self) -> (r: bool)
        ensures
            r == (self@.active || self@.nest > 0),
    {
        self.active || self.nest > 0
    }

    /// Takes a trap: remembers its context and counts it.
    pub fn dispatch(&mut self, ctx: Context) -> (r: Context)
        ensures
            r == ctx,
            final(self)@ == old(self)@.dispatched(ctx@),
    {
        self.frame = Some(ctx);
        self.nest = self.nest.wrapping_add(1);
        ctx
    }

    /// The context of the last trap.
    pub fn current(&self) -> (r: Option<Context>)
        ensures
            frame_view(r) == self@.frame,
    {
        self.frame
    }

    /// Takes an interrupt, and is not active any more.
    pub fn handle_irq(&mut self, ctx: Context) -> (r: Context)
        ensures
            r == ctx,
            final(self)@ == (TrapView { active: false, ..old(self)@.dispatched(ctx@) }),
    {
        let r = self.dispatch(ctx);
        self.active = false;
        r
    }

    /// A page fault can only be dealt with inside a handler.
    pub fn on_pgfault(&self, _va: usize) -> (r: Result<(), &'static str>)
        ensures
            r == (if self@.active || self@.nest > 0 { Ok::<(), &'static str>(()) } else { Err("fault") }),
    {
        if !self.active && self.nest == 0 {
            return Err("fault");
        }
        Ok(())
    }

    /// Takes the trap if the masks let it through.
    pub fn dispatch_vector(&mut self, vector: usize, ctx: Context) -> (r: Context)
        ensures
            r == ctx,
            final(self)@ == (if old(self)@.lets(vector) { old(self)@.dispatched(ctx@) } else { old(self)@ }),
    {
        if vector <= 7 {
            if self.hw_mask & (1u32 << vector) != 0 {
                return self.dispatch(ctx);
            }
        } else if vector <= 15 {
            let sw_bit: usize = vector - 8;
            if self.sw_mask & (1u32 << sw_bit) != 0 {
                return self.dispatch(ctx);
            }
        }
        ctx
    }

    pub fn push_frame(&mut self, ctx: &Context)
        ensures
            final(self)@ == (TrapView { stack: old(self)@.stack.push(ctx@), ..old(self)@ }),
    {
        self.stack.push(*ctx);
        assert(self@.stack =~= old(self)@.stack.push(ctx@));
    }

    pub fn pop_frame(&mut self) -> (r: Option<Context>)
        ensures
            old(self)@.stack.len() == 0 ==> r is None && final(self)@ == old(self)@,
            old(self)@.stack.len() > 0 ==> frame_view(r) == Some(old(self)@.stack.last()) && final(self)@ == (
            TrapView { stack: old(self)@.stack.drop_last(), ..old(self)@ }),
    {
        let r = self.stack.pop();
        proof {
            if old(self)@.stack.len() > 0 {
                assert(self@.stack =~= old(self)@.stack.drop_last());
            } else {
                assert(self@.stack =~= old(self)@.stack);
            }
        }
        r
    }

    pub fn nest_depth(&self) -> (r: usize)
        ensures
            r == self@.nest,
    {
        self.nest
    }

    pub fn suppress(&mut self)
        ensures
            final(self)@ == (TrapView { suppressed: true, ..old(self)@ }),
    {
        self.suppressed = true;
    }

    pub fn unsuppress(&mut self)
        ensures
            final(self)@ == (TrapView { suppressed: false, ..old(self)@ }),
    {
        self.suppressed = false;
    }
}

} // verus!
