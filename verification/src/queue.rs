//! Queue selection: picking graphics, present and transfer queues out of the
//! queue-family table that the device layer reports.
//!
//! The device layer hands this module the table as plain values (flags, queue
//! counts, surface support); the selection rules themselves are verified.

use vstd::prelude::*;

verus! {

/// Queue-capability bit for graphics work.
pub const QUEUE_GRAPHICS: u32 = 1;

/// Queue-capability bit for transfer work.
pub const QUEUE_TRANSFER: u32 = 4;

/// One queue on the device: a family index and the queue's index inside it.
#[derive(Debug, PartialEq, Eq, Structural, Hash, Clone, Copy)]
pub struct QueueDef {
    pub family: u32,
    pub index: u32,
}

impl QueueDef {
    pub fn new(family: u32, index: u32) -> (r: Self)
        ensures
            r.family == family,
            r.index == index,
    {
        Self { family, index }
    }
}

/// One queue family as the device reports it: its capability flags, how many
/// queues it offers, and whether it can present to the window surface.
#[derive(Debug, PartialEq, Eq, Structural, Clone, Copy)]
pub struct QueueFamily {
    pub queue_flags: u32,
    pub queue_count: u32,
    pub surface_support: bool,
}

/// Why queue selection failed.
#[derive(Debug, PartialEq, Eq, Structural, Clone, Copy)]
pub enum QueueSelectError {
    /// No family offers a transfer-capable queue for the meshing workers.
    NoTransferQueue,
    /// No family offers a graphics-capable queue.
    NoGraphicsQueue,
    /// No family can present to the surface.
    NoPresentQueue,
}

/// Family `i` can run graphics work.
pub open spec fn is_graphics_family(families: Seq<QueueFamily>, i: int) -> bool {
    0 <= i < families.len() && families[i].queue_flags & QUEUE_GRAPHICS != 0
}

/// Family `i` can present to the surface.
pub open spec fn is_present_family(families: Seq<QueueFamily>, i: int) -> bool {
    0 <= i < families.len() && families[i].surface_support
}

/// Family `i` can run transfer work.
pub open spec fn is_transfer_family(families: Seq<QueueFamily>, i: int) -> bool {
    0 <= i < families.len() && families[i].queue_flags & QUEUE_TRANSFER != 0
}

/// Family `i` is the first graphics-capable family, so its queue 0 serves
/// the render loop.
pub open spec fn is_first_graphics_family(families: Seq<QueueFamily>, i: int) -> bool {
    is_graphics_family(families, i) && forall|j: int| 0 <= j < i ==> !is_graphics_family(families, j)
}

/// Family `i` is the first presenting family, so its queue 0 serves
/// presentation.
pub open spec fn is_first_present_family(families: Seq<QueueFamily>, i: int) -> bool {
    is_present_family(families, i) && forall|j: int| 0 <= j < i ==> !is_present_family(families, j)
}

/// How many queues of family `i` the render loop claims: queue 0, when the
/// family is the first graphics or first presenting family.
pub open spec fn family_reserved(families: Seq<QueueFamily>, i: int) -> int {
    if is_first_graphics_family(families, i) || is_first_present_family(families, i) {
        1
    } else {
        0
    }
}

/// No worker queue remains on the device: every transfer-capable family's
/// queues are all claimed by the render loop.
pub open spec fn no_worker_queues(families: Seq<QueueFamily>) -> bool {
    forall|i: int| is_transfer_family(families, i)
        ==> families[i].queue_count <= family_reserved(families, i)
}

/// Family `j` qualifies as the dedicated transfer family when the render
/// loop uses family `g` for graphics: transfer-capable, distinct from the
/// graphics family's properties, and at least `required` queues.
pub open spec fn transfer_family_qualifies(
    families: Seq<QueueFamily>,
    j: int,
    required: u32,
    g: int,
) -> bool {
    &&& is_transfer_family(families, j)
    &&& families[j] != families[g]
    &&& families[j].queue_count >= required
}

/// Pick the graphics queue, the present queue and the meshing workers'
/// transfer queues from the device's queue-family table. The graphics and
/// present queues are queue 0 of the first capable family each; every
/// remaining queue of every transfer-capable family becomes a worker queue,
/// skipping queue 0 of a family that already serves graphics or present, so
/// no worker shares a queue with the render loop or with another worker.
/// Fails with `NoTransferQueue` exactly when no worker queue exists at all.
pub fn get_queues(families: &Vec<QueueFamily>) -> (r: Result<(QueueDef, QueueDef, Vec<QueueDef>), QueueSelectError>)
    requires
        families@.len() <= 0x7fff_ffff,
        forall|i: int| 0 <= i < families@.len() ==> (#[trigger] families@[i]).queue_count >= 1,
    ensures
        match r {
            Ok(queues) => {
                &&& is_graphics_family(families@, queues.0.family as int)
                &&& forall|j: int| 0 <= j < queues.0.family ==> !is_graphics_family(families@, j)
                &&& queues.0.index == 0
                &&& is_present_family(families@, queues.1.family as int)
                &&& forall|j: int| 0 <= j < queues.1.family ==> !is_present_family(families@, j)
                &&& queues.1.index == 0
                &&& queues.2@.len() >= 1
                &&& forall|t: int| 0 <= t < queues.2@.len()
                        ==> is_transfer_family(families@, (#[trigger] queues.2@[t]).family as int)
                            && queues.2@[t].index < families@[queues.2@[t].family as int].queue_count
                            && queues.2@[t] != queues.0
                            && queues.2@[t] != queues.1
                &&& forall|t1: int, t2: int|
                        0 <= t1 < queues.2@.len() && 0 <= t2 < queues.2@.len() && t1 != t2
                        ==> (#[trigger] queues.2@[t1]) != (#[trigger] queues.2@[t2])
                &&& !no_worker_queues(families@)
            }
            Err(e) => {
                &&& (e == QueueSelectError::NoTransferQueue <==> no_worker_queues(families@))
                &&& (e == QueueSelectError::NoGraphicsQueue
                        ==> !no_worker_queues(families@)
                            && forall|j: int| !is_graphics_family(families@, j))
                &&& (e == QueueSelectError::NoPresentQueue
                        ==> !no_worker_queues(families@)
                            && (exists|g2: int| is_first_graphics_family(families@, g2))
                            && forall|j: int| !is_present_family(families@, j))
            },
        },
{
    let n = families.len();
    let mut graphics: Option<QueueDef> = None;
    let mut present: Option<QueueDef> = None;
    let mut transfer: Vec<QueueDef> = Vec::new();

    let mut index: usize = 0;
    while index < n
        invariant
            0 <= index <= n,
            n == families@.len(),
            n <= 0x7fff_ffff,
            forall|i: int| 0 <= i < families@.len() ==> (#[trigger] families@[i]).queue_count >= 1,
            match graphics {
                Some(g) => is_graphics_family(families@, g.family as int) && g.index == 0
                    && g.family < index
                    && (forall|j: int| 0 <= j < g.family ==> !is_graphics_family(families@, j)),
                None => forall|j: int| 0 <= j < index ==> !is_graphics_family(families@, j),
            },
            match present {
                Some(p) => is_present_family(families@, p.family as int) && p.index == 0
                    && p.family < index
                    && (forall|j: int| 0 <= j < p.family ==> !is_present_family(families@, j)),
                None => forall|j: int| 0 <= j < index ==> !is_present_family(families@, j),
            },
            forall|t: int| 0 <= t < transfer@.len()
                ==> is_transfer_family(families@, (#[trigger] transfer@[t]).family as int)
                    && transfer@[t].family < index
                    && transfer@[t].index < families@[transfer@[t].family as int].queue_count
                    && (graphics is Some && graphics->Some_0.family == transfer@[t].family
                        ==> transfer@[t].index >= 1)
                    && (present is Some && present->Some_0.family == transfer@[t].family
                        ==> transfer@[t].index >= 1),
            forall|t1: int, t2: int|
                0 <= t1 < transfer@.len() && 0 <= t2 < transfer@.len() && t1 != t2
                ==> (#[trigger] transfer@[t1]) != (#[trigger] transfer@[t2]),
            (transfer@.len() == 0) == (forall|fi: int| 0 <= fi < index
                ==> (is_transfer_family(families@, fi)
                    ==> families@[fi].queue_count <= family_reserved(families@, fi))),
        decreases n - index,
    {
        let ghost transfer_entry = transfer@;
        let ghost graphics0 = graphics;
        let ghost present0 = present;
        let family = families[index];
        let mut min_queue_index: u32 = 0;
        if graphics.is_none() && family.queue_flags & QUEUE_GRAPHICS != 0 {
            graphics = Some(QueueDef::new(index as u32, 0));
            min_queue_index = 1;
        }
        if present.is_none() && family.surface_support {
            present = Some(QueueDef::new(index as u32, 0));
            min_queue_index = 1;
        }
        proof {
            assert(is_first_graphics_family(families@, index as int)
                <==> (graphics0 is None && is_graphics_family(families@, index as int))) by {
                if is_first_graphics_family(families@, index as int) {
                    if graphics0 is Some {
                        assert(is_graphics_family(families@, graphics0->Some_0.family as int));
                    }
                }
            }
            assert(is_first_present_family(families@, index as int)
                <==> (present0 is None && is_present_family(families@, index as int))) by {
                if is_first_present_family(families@, index as int) {
                    if present0 is Some {
                        assert(is_present_family(families@, present0->Some_0.family as int));
                    }
                }
            }
            assert(min_queue_index as int == family_reserved(families@, index as int));
        }
        if family.queue_flags & QUEUE_TRANSFER != 0 {
            let ghost transfer_before = transfer@;
            let mut qi: u32 = min_queue_index;
            while qi < family.queue_count
                invariant
                    min_queue_index <= qi <= family.queue_count || qi == min_queue_index,
                    index < n,
                    n == families@.len(),
                    n <= 0x7fff_ffff,
                    family == families@[index as int],
                    family.queue_flags & QUEUE_TRANSFER != 0,
                    min_queue_index == 0 || min_queue_index == 1,
                    (graphics is Some && graphics->Some_0.family == index
                        ==> min_queue_index >= 1),
                    (present is Some && present->Some_0.family == index
                        ==> min_queue_index >= 1),
                    transfer@.len() >= transfer_before.len(),
                    transfer@.len() == transfer_before.len() + (qi - min_queue_index),
                    forall|t: int| 0 <= t < transfer_before.len()
                        ==> #[trigger] transfer@[t] == transfer_before[t],
                    forall|t: int| 0 <= t < transfer_before.len()
                        ==> (#[trigger] transfer@[t]).family < index,
                    forall|t: int| transfer_before.len() <= t < transfer@.len()
                        ==> (#[trigger] transfer@[t]).family == index
                            && min_queue_index <= transfer@[t].index < qi,
                    forall|t: int| 0 <= t < transfer@.len()
                        ==> is_transfer_family(families@, (#[trigger] transfer@[t]).family as int)
                            && transfer@[t].index < families@[transfer@[t].family as int].queue_count,
                    forall|t1: int, t2: int|
                        0 <= t1 < transfer@.len() && 0 <= t2 < transfer@.len() && t1 != t2
                        ==> (#[trigger] transfer@[t1]) != (#[trigger] transfer@[t2]),
                decreases family.queue_count - qi,
            {
                transfer.push(QueueDef::new(index as u32, qi));
                qi = qi + 1;
            }
        }
        proof {
            assert forall|fi: int| 0 <= fi < index + 1
                && (transfer@.len() == 0)
                implies (is_transfer_family(families@, fi)
                    ==> families@[fi].queue_count <= family_reserved(families@, fi)) by {
                if fi < index {
                    assert(transfer_entry.len() <= transfer@.len());
                }
            }
            if transfer@.len() > 0 && transfer_entry.len() == 0 {
                // something was pushed this round, so this family has a free
                // transfer queue beyond what the render loop reserved
                assert(is_transfer_family(families@, index as int));
                assert(families@[index as int].queue_count > family_reserved(families@, index as int));
            }
        }
        index = index + 1;
    }
    proof {
        assert((transfer@.len() == 0) == no_worker_queues(families@)) by {
            if transfer@.len() == 0 {
                assert forall|fi: int| is_transfer_family(families@, fi)
                    implies families@[fi].queue_count <= family_reserved(families@, fi) by {
                    assert(0 <= fi < families@.len());
                }
            }
        }
    }

    if transfer.len() == 0 {
        return Err(QueueSelectError::NoTransferQueue);
    }
    proof {
        // a worker queue exists: the first pushed entry's family has more
        // queues than the render loop reserved
        let t0 = transfer@[0];
        let fi = t0.family as int;
        assert(is_transfer_family(families@, fi));
        assert(families@[fi].queue_count > family_reserved(families@, fi)) by {
            if family_reserved(families@, fi) == 1 {
                if is_first_graphics_family(families@, fi) {
                    match graphics {
                        Some(g) => {
                            assert(is_first_graphics_family(families@, g.family as int));
                            assert(g.family as int == fi) by {
                                if (g.family as int) < fi {
                                    assert(!is_graphics_family(families@, g.family as int));
                                }
                                if fi < g.family as int {
                                    assert(!is_graphics_family(families@, fi));
                                }
                            }
                            assert(t0.index >= 1);
                        }
                        None => {
                            assert(!is_graphics_family(families@, fi));
                        }
                    }
                }
                if is_first_present_family(families@, fi) {
                    match present {
                        Some(p) => {
                            assert(is_first_present_family(families@, p.family as int));
                            assert(p.family as int == fi) by {
                                if (p.family as int) < fi {
                                    assert(!is_present_family(families@, p.family as int));
                                }
                                if fi < p.family as int {
                                    assert(!is_present_family(families@, fi));
                                }
                            }
                            assert(t0.index >= 1);
                        }
                        None => {
                            assert(!is_present_family(families@, fi));
                        }
                    }
                }
            }
        }
        assert(!no_worker_queues(families@));
    }
    let g = match graphics {
        Some(g) => g,
        None => {
            return Err(QueueSelectError::NoGraphicsQueue);
        }
    };
    let p = match present {
        Some(p) => p,
        None => {
            proof {
                assert(is_first_graphics_family(families@, g.family as int));
            }
            return Err(QueueSelectError::NoPresentQueue);
        }
    };
    proof {
        assert forall|t: int| 0 <= t < transfer@.len()
            implies (#[trigger] transfer@[t]) != g && transfer@[t] != p by {
            if transfer@[t].family == g.family {
                assert(transfer@[t].index >= 1);
            }
            if transfer@[t].family == p.family {
                assert(transfer@[t].index >= 1);
            }
        }
    }
    Ok((g, p, transfer))
}

/// The graphics, present and transfer family indices a renderer needs.
#[derive(Debug, PartialEq, Eq, Structural, Clone, Copy)]
pub struct QueueFamilyIndices {
    pub graphics: u32,
    pub present: u32,
    pub transfer: u32,
}

impl QueueFamilyIndices {
    /// Pick one family per role from the device's table: the first
    /// graphics-capable family; the first transfer-capable family that is
    /// distinct from the graphics family's properties and offers at least
    /// `required_queue_count` queues (one per meshing worker); and the first
    /// presenting family other than the transfer family.
    pub fn get(families: &Vec<QueueFamily>, required_queue_count: u32) -> (r: Result<Self, QueueSelectError>)
        requires
            families@.len() <= 0x7fff_ffff,
        ensures
            match r {
                Ok(indices) => {
                    &&& is_first_graphics_family(families@, indices.graphics as int)
                    &&& transfer_family_qualifies(
                        families@, indices.transfer as int, required_queue_count,
                        indices.graphics as int)
                    &&& forall|j: int| 0 <= j < indices.transfer
                            ==> !transfer_family_qualifies(
                                families@, j, required_queue_count, indices.graphics as int)
                    &&& is_present_family(families@, indices.present as int)
                    &&& indices.present != indices.transfer
                    &&& forall|j: int| 0 <= j < indices.present
                            ==> !(is_present_family(families@, j) && j != indices.transfer)
                }
                Err(e) => {
                    &&& (e == QueueSelectError::NoGraphicsQueue
                            <==> forall|j: int| !is_graphics_family(families@, j))
                    &&& (e == QueueSelectError::NoTransferQueue
                            ==> exists|g2: int|
                                is_first_graphics_family(families@, g2)
                                    && forall|j: int|
                                        !transfer_family_qualifies(
                                            families@, j, required_queue_count, g2))
                    &&& (e == QueueSelectError::NoPresentQueue
                            ==> exists|g2: int, t2: int|
                                is_first_graphics_family(families@, g2)
                                    && #[trigger] transfer_family_qualifies(
                                        families@, t2, required_queue_count, g2)
                                    && forall|j: int|
                                        !(is_present_family(families@, j) && j != t2))
                },
            },
    {
        let n = families.len();
        let mut graphics: Option<u32> = None;
        let mut i: usize = 0;
        while i < n
            invariant_except_break
                graphics is None,
            invariant
                0 <= i <= n,
                n == families@.len(),
                n <= 0x7fff_ffff,
                forall|j: int| 0 <= j < i ==> !is_graphics_family(families@, j),
            ensures
                match graphics {
                    Some(g) => is_graphics_family(families@, g as int)
                        && forall|j: int| 0 <= j < g ==> !is_graphics_family(families@, j),
                    None => forall|j: int| 0 <= j < n ==> !is_graphics_family(families@, j),
                },
            decreases n - i,
        {
            if families[i].queue_flags & QUEUE_GRAPHICS != 0 {
                graphics = Some(i as u32);
                break;
            }
            i = i + 1;
        }
        let graphics = match graphics {
            Some(g) => g,
            None => {
                return Err(QueueSelectError::NoGraphicsQueue);
            }
        };

        let mut transfer: Option<u32> = None;
        let mut i: usize = 0;
        while i < n
            invariant_except_break
                transfer is None,
            invariant
                0 <= i <= n,
                n == families@.len(),
                n <= 0x7fff_ffff,
                graphics < n,
                forall|j: int| 0 <= j < i
                    ==> !transfer_family_qualifies(families@, j, required_queue_count, graphics as int),
            ensures
                match transfer {
                    Some(t) => transfer_family_qualifies(
                            families@, t as int, required_queue_count, graphics as int)
                        && forall|j: int| 0 <= j < t
                            ==> !transfer_family_qualifies(
                                families@, j, required_queue_count, graphics as int),
                    None => forall|j: int|
                        !transfer_family_qualifies(families@, j, required_queue_count, graphics as int),
                },
            decreases n - i,
        {
            let f = families[i];
            if f.queue_flags & QUEUE_TRANSFER != 0 && !(f == families[graphics as usize])
                && f.queue_count >= required_queue_count {
                transfer = Some(i as u32);
                break;
            }
            i = i + 1;
        }
        let transfer = match transfer {
            Some(t) => t,
            None => {
                proof {
                    assert(is_first_graphics_family(families@, graphics as int));
                }
                return Err(QueueSelectError::NoTransferQueue);
            }
        };

        let mut present: Option<u32> = None;
        let mut i: usize = 0;
        while i < n
            invariant_except_break
                present is None,
            invariant
                0 <= i <= n,
                n == families@.len(),
                n <= 0x7fff_ffff,
                forall|j: int| 0 <= j < i
                    ==> !(is_present_family(families@, j) && j != transfer),
            ensures
                match present {
                    Some(p) => is_present_family(families@, p as int) && p != transfer
                        && forall|j: int| 0 <= j < p
                            ==> !(is_present_family(families@, j) && j != transfer),
                    None => forall|j: int| !(is_present_family(families@, j) && j != transfer),
                },
            decreases n - i,
        {
            if families[i].surface_support && i as u32 != transfer {
                present = Some(i as u32);
                break;
            }
            i = i + 1;
        }
        match present {
            Some(present) => Ok(Self { graphics, present, transfer }),
            None => {
                proof {
                    assert(is_first_graphics_family(families@, graphics as int));
                    assert(transfer_family_qualifies(
                        families@, transfer as int, required_queue_count, graphics as int));
                }
                Err(QueueSelectError::NoPresentQueue)
            }
        }
    }
}

} // verus!
