//! Per-aircraft entity tracking.
//!
//! One record per transponder address: last altitude, position decoded
//! from paired CPR frames, flight identifier, and a rolling window of
//! `(angles, amplitudes, snr)` observations whose SNR-weighted average
//! becomes the next steering vector for that aircraft.  Angles are
//! micro-radians, amplitudes and SNR milli-units.

use vstd::prelude::*;
use crate::SAMPLE_RATE;
use crate::cpr::{decode_cpr, spec_decode_cpr};
use crate::decode::{Message, MessageSpecific};
use crate::pipemgmt::{PipeManagement, ThreadTxMessage, first_free_from};

verus! {

/// Truncating (round toward zero) division, matching machine division.
pub open spec fn trunc_div(a: int, b: int) -> int {
    if a >= 0 {
        a / b
    } else {
        -((-a) / b)
    }
}

/// Clamp an averaged angle into the stored micro-radian range.
pub open spec fn clamp_theta(v: int) -> int {
    if v < -4000000 {
        -4000000
    } else if v > 4000000 {
        4000000
    } else {
        v
    }
}

/// Clamp an averaged amplitude into `u32` range.
pub open spec fn clamp_amp(v: int) -> int {
    if v > 0xffffffff {
        0xffffffff
    } else if v < 0 {
        0
    } else {
        v
    }
}

/// Sum of the first `n` SNR weights, each scaled by `sc`.
pub open spec fn wsum_to(snrs: Seq<u32>, sc: u32, n: int) -> int
    decreases n,
{
    if n <= 0 {
        0
    } else {
        wsum_to(snrs, sc, n - 1) + (snrs[n - 1] as int) * (sc as int)
    }
}

/// The total SNR weight of a window.
pub open spec fn spec_total_weight(snrs: Seq<u32>, sc: u32) -> int {
    wsum_to(snrs, sc, snrs.len() as int)
}

/// Weighted sum of coordinate `x` of the first `n` angle rows.
pub open spec fn theta_wsum_to(th: Seq<Vec<i32>>, snrs: Seq<u32>, sc: u32, x: int, n: int) -> int
    decreases n,
{
    if n <= 0 {
        0
    } else {
        theta_wsum_to(th, snrs, sc, x, n - 1) + (th[n - 1]@[x] as int) * (snrs[n - 1] as int) * (
        sc as int)
    }
}

/// Weighted sum of coordinate `x` of the first `n` amplitude rows.
pub open spec fn amp_wsum_to(am: Seq<Vec<u32>>, snrs: Seq<u32>, sc: u32, x: int, n: int) -> int
    decreases n,
{
    if n <= 0 {
        0
    } else {
        amp_wsum_to(am, snrs, sc, x, n - 1) + (am[n - 1]@[x] as int) * (snrs[n - 1] as int) * (
        sc as int)
    }
}

/// The weighted average of angle coordinate `x` over a whole window,
/// clamped into the stored range.
pub open spec fn spec_theta_avg(th: Seq<Vec<i32>>, snrs: Seq<u32>, sc: u32, x: int) -> int {
    clamp_theta(
        trunc_div(
            theta_wsum_to(th, snrs, sc, x, th.len() as int),
            spec_total_weight(snrs, sc),
        ),
    )
}

/// The weighted average of amplitude coordinate `x` over a window.
pub open spec fn spec_amp_avg(am: Seq<Vec<u32>>, snrs: Seq<u32>, sc: u32, x: int) -> int {
    clamp_amp(
        trunc_div(amp_wsum_to(am, snrs, sc, x, am.len() as int), spec_total_weight(snrs, sc)),
    )
}

/// A window sequence trimmed to the most recent `n` rows.
pub open spec fn trim<T>(s: Seq<T>, n: int) -> Seq<T> {
    if s.len() <= n {
        s
    } else {
        s.take(n)
    }
}

/// Anything with a transponder, such as an aircraft.
pub struct Entity {
    /// The 24-bit transponder address.
    pub addr: u32,
    /// The pending odd CPR frame: raw latitude, raw longitude, sample index.
    pub odd_cpr: Option<(u32, u32, u64)>,
    /// The pending even CPR frame.
    pub even_cpr: Option<(u32, u32, u64)>,
    /// Last decoded latitude, micro-degrees.
    pub lat_e6: Option<i64>,
    /// Last decoded longitude, micro-degrees.
    pub lon_e6: Option<i64>,
    /// Last known altitude, feet.
    pub alt: Option<i32>,
    /// Last known flight identifier (eight AIS characters).
    pub flight: Option<Vec<char>>,
    /// Last known aircraft type nibble.
    pub aircraft_type: Option<u8>,
    /// Sample stream index of the last identity or position update.
    pub last_update: u64,
    /// Total messages attributed to this address.
    pub message_count: u64,
    /// Rolling window of angle rows, most recent first.
    pub thetas: Vec<Vec<i32>>,
    /// Rolling window of SNR values, most recent first.
    pub snrs: Vec<u32>,
    /// Rolling window of amplitude rows, most recent first.
    pub amps: Vec<Vec<u32>>,
    /// Messages that arrived through the slot bound to this address.
    pub inbeam: u64,
}

/// An angle row is within the stored micro-radian range.
pub open spec fn theta_row_ok(row: Vec<i32>, width: int) -> bool {
    &&& row@.len() == width
    &&& forall|x: int| 0 <= x < row@.len() ==> -4000000 <= #[trigger] row@[x] <= 4000000
}

impl Entity {
    /// Well-formedness of the rolling windows: equal lengths, bounded
    /// depth, uniform row widths, bounded angles, and room in the
    /// counters.
    pub open spec fn wf(&self, theta_width: int, amp_width: int) -> bool {
        &&& self.thetas@.len() == self.snrs@.len()
        &&& self.amps@.len() == self.snrs@.len()
        &&& self.snrs@.len() <= 65536
        &&& forall|y: int|
            0 <= y < self.thetas@.len() ==> theta_row_ok(#[trigger] self.thetas@[y], theta_width)
        &&& forall|y: int| 0 <= y < self.amps@.len() ==> (#[trigger] self.amps@[y])@.len() == amp_width
    }

    /// The SNR-weighted average of the window's angle and amplitude
    /// rows, or `None` when the total weight is zero.
    pub fn theta_avg(&self, snr_scaler: u32) -> (r: Option<(Vec<i32>, Vec<u32>)>)
        requires
            self.wf(self.thetas@[0]@.len() as int, self.amps@[0]@.len() as int),
            self.snrs@.len() >= 1,
        ensures
            r is None <==> spec_total_weight(self.snrs@, snr_scaler) == 0,
            r matches Some((ta, aa)) ==> {
                &&& ta@.len() == self.thetas@[0]@.len()
                &&& aa@.len() == self.amps@[0]@.len()
                &&& forall|x: int|
                    0 <= x < ta@.len() ==> #[trigger] ta@[x] as int == spec_theta_avg(
                        self.thetas@,
                        self.snrs@,
                        snr_scaler,
                        x,
                    )
                &&& forall|x: int|
                    0 <= x < aa@.len() ==> #[trigger] aa@[x] as int == spec_amp_avg(
                        self.amps@,
                        self.snrs@,
                        snr_scaler,
                        x,
                    )
            },
    {
        let n = self.snrs.len();
        let width = self.thetas[0].len();
        let awidth = self.amps[0].len();

        let mut total: i128 = 0;
        for y in 0..n
            invariant
                n == self.snrs@.len(),
                n <= 65536,
                total == wsum_to(self.snrs@, snr_scaler, y as int),
                0 <= total <= (y as int) * 0x10000000000000000,
        {
            proof {
                assert(0 <= (self.snrs@[y as int] as int) * (snr_scaler as int)
                    < 0x10000000000000000) by (nonlinear_arith)
                    requires
                        0 <= self.snrs@[y as int] < 0x100000000 && 0 <= snr_scaler < 0x100000000,
                ;
            }
            total = total + (self.snrs[y] as i128) * (snr_scaler as i128);
        }
        assert(total == spec_total_weight(self.snrs@, snr_scaler));

        if total == 0 {
            return None;
        }

        let mut ta: Vec<i32> = Vec::new();
        for x in 0..width
            invariant
                self.wf(width as int, awidth as int),
                n == self.snrs@.len(),
                1 <= n,
                width == self.thetas@[0]@.len(),
                total == spec_total_weight(self.snrs@, snr_scaler),
                total > 0,
                ta@.len() == x,
                forall|z: int|
                    0 <= z < x ==> #[trigger] ta@[z] as int == spec_theta_avg(
                        self.thetas@,
                        self.snrs@,
                        snr_scaler,
                        z,
                    ),
        {
            let mut sum: i128 = 0;
            for y in 0..n
                invariant
                    self.wf(width as int, awidth as int),
                    n == self.snrs@.len(),
                    width == self.thetas@[0]@.len(),
                    0 <= x < width,
                    sum == theta_wsum_to(self.thetas@, self.snrs@, snr_scaler, x as int, y as int),
                    -((y as int) * 0x800000000000000000000000) <= sum <= (y as int)
                        * 0x800000000000000000000000,
            {
                proof {
                    let a = self.thetas@[y as int]@[x as int] as int;
                    let b = self.snrs@[y as int] as int;
                    let c = snr_scaler as int;
                    assert(-0x8000000000000000 <= a * b <= 0x8000000000000000
                        && -0x800000000000000000000000 <= a * b * c
                        <= 0x800000000000000000000000) by (nonlinear_arith)
                        requires
                            -0x80000000 <= a < 0x80000000 && 0 <= b < 0x100000000 && 0 <= c
                                < 0x100000000,
                    ;
                }
                sum = sum + (self.thetas[y][x] as i128) * (self.snrs[y] as i128) * (snr_scaler
                    as i128);
            }
            let q = sum / total;
            let clamped: i32 = if q < -4000000 {
                -4000000
            } else if q > 4000000 {
                4000000
            } else {
                q as i32
            };
            ta.push(clamped);
        }

        let mut aa: Vec<u32> = Vec::new();
        for x in 0..awidth
            invariant
                self.wf(width as int, awidth as int),
                n == self.snrs@.len(),
                1 <= n,
                awidth == self.amps@[0]@.len(),
                total == spec_total_weight(self.snrs@, snr_scaler),
                total > 0,
                aa@.len() == x,
                forall|z: int|
                    0 <= z < x ==> #[trigger] aa@[z] as int == spec_amp_avg(
                        self.amps@,
                        self.snrs@,
                        snr_scaler,
                        z,
                    ),
        {
            let mut sum: i128 = 0;
            for y in 0..n
                invariant
                    self.wf(width as int, awidth as int),
                    n == self.snrs@.len(),
                    awidth == self.amps@[0]@.len(),
                    0 <= x < awidth,
                    sum == amp_wsum_to(self.amps@, self.snrs@, snr_scaler, x as int, y as int),
                    0 <= sum <= (y as int) * 0x1000000000000000000000000,
            {
                proof {
                    let a = self.amps@[y as int]@[x as int] as int;
                    let b = self.snrs@[y as int] as int;
                    let c = snr_scaler as int;
                    assert(0 <= a * b <= 0x10000000000000000 && 0 <= a * b * c
                        <= 0x1000000000000000000000000) by (nonlinear_arith)
                        requires
                            0 <= a < 0x100000000 && 0 <= b < 0x100000000 && 0 <= c < 0x100000000,
                    ;
                }
                sum = sum + (self.amps[y][x] as i128) * (self.snrs[y] as i128) * (snr_scaler
                    as i128);
            }
            let q = sum / total;
            proof {
                assert(sum / total >= 0) by (nonlinear_arith)
                    requires
                        sum >= 0 && total > 0,
                ;
            }
            let clamped: u32 = if q > 0xffffffff {
                0xffffffff
            } else {
                q as u32
            };
            aa.push(clamped);
        }

        Some((ta, aa))
    }

    /// Push a new observation row to the front of the window, trim the
    /// window to `num` rows, and return the weighted average of what
    /// remains (`None` when the total weight is zero).
    pub fn push_theta_cap_avg(
        &mut self,
        snr: u32,
        thetas: Vec<i32>,
        amps: Vec<u32>,
        num: usize,
        snr_scaler: u32,
    ) -> (r: Option<(Vec<i32>, Vec<u32>)>)
        requires
            old(self).wf(thetas@.len() as int, amps@.len() as int),
            theta_row_ok(thetas, thetas@.len() as int),
            1 <= num <= 65536,
        ensures
            final(self).wf(thetas@.len() as int, amps@.len() as int),
            final(self).thetas@ == trim(old(self).thetas@.insert(0, thetas), num as int),
            final(self).snrs@ == trim(old(self).snrs@.insert(0, snr), num as int),
            final(self).amps@ == trim(old(self).amps@.insert(0, amps), num as int),
            final(self).addr == old(self).addr,
            final(self).odd_cpr == old(self).odd_cpr,
            final(self).even_cpr == old(self).even_cpr,
            final(self).lat_e6 == old(self).lat_e6,
            final(self).lon_e6 == old(self).lon_e6,
            final(self).alt == old(self).alt,
            final(self).flight == old(self).flight,
            final(self).aircraft_type == old(self).aircraft_type,
            final(self).last_update == old(self).last_update,
            final(self).message_count == old(self).message_count,
            final(self).inbeam == old(self).inbeam,
            r is None <==> spec_total_weight(final(self).snrs@, snr_scaler) == 0,
            r matches Some((ta, aa)) ==> {
                &&& ta@.len() == thetas@.len()
                &&& aa@.len() == amps@.len()
                &&& forall|x: int|
                    0 <= x < ta@.len() ==> #[trigger] ta@[x] as int == spec_theta_avg(
                        final(self).thetas@,
                        final(self).snrs@,
                        snr_scaler,
                        x,
                    )
                &&& forall|x: int|
                    0 <= x < aa@.len() ==> #[trigger] aa@[x] as int == spec_amp_avg(
                        final(self).amps@,
                        final(self).snrs@,
                        snr_scaler,
                        x,
                    )
            },
    {
        let ghost tw = thetas@.len() as int;
        let ghost aw = amps@.len() as int;
        self.thetas.insert(0, thetas);
        self.snrs.insert(0, snr);
        self.amps.insert(0, amps);
        let ghost pushed_th = self.thetas@;
        let ghost pushed_sn = self.snrs@;
        let ghost pushed_am = self.amps@;
        assert(pushed_th.take(pushed_th.len() as int) == pushed_th);
        assert(pushed_sn.take(pushed_sn.len() as int) == pushed_sn);
        assert(pushed_am.take(pushed_am.len() as int) == pushed_am);

        while self.thetas.len() > num
            invariant
                1 <= num,
                self.snrs@.len() == self.thetas@.len(),
                self.amps@.len() == self.thetas@.len(),
                self.thetas@.len() <= pushed_th.len(),
                num <= self.thetas@.len() || self.thetas@.len() == pushed_th.len(),
                self.thetas@ == pushed_th.take(self.thetas@.len() as int),
                self.snrs@ == pushed_sn.take(self.thetas@.len() as int),
                self.amps@ == pushed_am.take(self.thetas@.len() as int),
                pushed_sn.len() == pushed_th.len(),
                pushed_am.len() == pushed_th.len(),
                self.addr == old(self).addr,
                self.odd_cpr == old(self).odd_cpr,
                self.even_cpr == old(self).even_cpr,
                self.lat_e6 == old(self).lat_e6,
                self.lon_e6 == old(self).lon_e6,
                self.alt == old(self).alt,
                self.flight == old(self).flight,
                self.aircraft_type == old(self).aircraft_type,
                self.last_update == old(self).last_update,
                self.message_count == old(self).message_count,
                self.inbeam == old(self).inbeam,
            decreases self.thetas@.len(),
        {
            self.thetas.pop();
            self.snrs.pop();
            self.amps.pop();
            proof {
                assert(self.thetas@ =~= pushed_th.take(self.thetas@.len() as int));
                assert(self.snrs@ =~= pushed_sn.take(self.thetas@.len() as int));
                assert(self.amps@ =~= pushed_am.take(self.thetas@.len() as int));
            }
        }

        proof {
            assert(self.thetas@ == trim(pushed_th, num as int));
            assert(self.snrs@ == trim(pushed_sn, num as int));
            assert(self.amps@ == trim(pushed_am, num as int));
            assert(self.thetas@[0] == pushed_th[0]);
            assert(self.wf(tw, aw));
        }

        self.theta_avg(snr_scaler)
    }

    /// Count the message toward `inbeam` when its pipe index is the
    /// slot currently bound to this entity's address.
    pub fn check_if_in_beam(&mut self, pipe_mgmt: &PipeManagement, pipe_ndx: usize)
        requires
            pipe_mgmt.wf(),
        ensures
            final(self).inbeam == spec_bump(
                old(self).inbeam,
                inbeam_hit(*pipe_mgmt, old(self).addr, pipe_ndx),
            ),
            final(self).addr == old(self).addr,
            final(self).odd_cpr == old(self).odd_cpr,
            final(self).even_cpr == old(self).even_cpr,
            final(self).lat_e6 == old(self).lat_e6,
            final(self).lon_e6 == old(self).lon_e6,
            final(self).alt == old(self).alt,
            final(self).flight == old(self).flight,
            final(self).aircraft_type == old(self).aircraft_type,
            final(self).last_update == old(self).last_update,
            final(self).message_count == old(self).message_count,
            final(self).thetas == old(self).thetas,
            final(self).snrs == old(self).snrs,
            final(self).amps == old(self).amps,
    {
        match pipe_mgmt.get_addr_pipe_ndx(self.addr) {
            Some(stored_pipe_ndx) => {
                proof {
                    assert(0 <= pipe_mgmt.global_ndx(self.addr) < pipe_mgmt.slots().len());
                }
                if stored_pipe_ndx == pipe_ndx && self.inbeam < 0xffffffffffffffff {
                    self.inbeam = self.inbeam + 1;
                }
            },
            None => (),
        }
    }
}

/// A counter bumped by one when `hit`, saturating at its maximum.
pub open spec fn spec_bump(c: u64, hit: bool) -> u64 {
    if hit && c < 0xffffffffffffffff {
        (c + 1) as u64
    } else {
        c
    }
}

/// The message's pipe index names the slot bound to address `a`.
pub open spec fn inbeam_hit(pm: PipeManagement, a: u32, pipe_ndx: usize) -> bool {
    pm.addr_map().contains_key(a) && pm.global_ndx(a) == pipe_ndx
}

/// The table of tracked entities, one per address, with the row widths
/// every observation window in it uses.
pub struct EntityTable {
    ents: Vec<Entity>,
    theta_width: usize,
    amp_width: usize,
}

/// First position in the entity sequence holding address `a` at or
/// after `k`, or -1.
pub open spec fn find_from(s: Seq<Entity>, a: u32, k: int) -> int
    decreases s.len() - k,
{
    if k < 0 || k >= s.len() {
        -1
    } else if s[k].addr == a {
        k
    } else {
        find_from(s, a, k + 1)
    }
}

/// Position of address `a` in the entity sequence, or -1.
pub open spec fn find_addr(s: Seq<Entity>, a: u32) -> int {
    find_from(s, a, 0)
}

proof fn lemma_find_props(s: Seq<Entity>, a: u32, k: int)
    requires
        0 <= k <= s.len(),
    ensures
        find_from(s, a, k) == -1 ==> forall|i: int| k <= i < s.len() ==> (#[trigger] s[i]).addr != a,
        find_from(s, a, k) >= 0 ==> k <= find_from(s, a, k) < s.len() && s[find_from(s, a, k)].addr
            == a,
        find_from(s, a, k) >= -1,
    decreases s.len() - k,
{
    if k < s.len() {
        lemma_find_props(s, a, k + 1);
    }
}

impl View for EntityTable {
    type V = Seq<Entity>;

    closed spec fn view(&self) -> Seq<Entity> {
        self.ents@
    }
}

impl EntityTable {
    /// The width of every stored angle row.
    pub closed spec fn spec_theta_width(&self) -> usize {
        self.theta_width
    }

    /// The width of every stored amplitude row.
    pub closed spec fn spec_amp_width(&self) -> usize {
        self.amp_width
    }

    /// Well-formedness: one entity per address, every window well
    /// formed at the table's widths, and every pending CPR frame's raw
    /// coordinates inside their 17-bit range.
    pub open spec fn wf(&self) -> bool {
        &&& forall|i: int, j: int|
            0 <= i < j < self@.len() ==> (#[trigger] self@[i]).addr != (#[trigger] self@[j]).addr
        &&& forall|i: int|
            0 <= i < self@.len() ==> (#[trigger] self@[i]).wf(
                self.spec_theta_width() as int,
                self.spec_amp_width() as int,
            )
        &&& forall|i: int| 0 <= i < self@.len() ==> cpr_fields_ok(#[trigger] self@[i])
    }

    /// An empty table for windows of the given row widths.
    pub fn new(theta_width: usize, amp_width: usize) -> (t: EntityTable)
        ensures
            t.wf(),
            t@.len() == 0,
            t.spec_theta_width() == theta_width,
            t.spec_amp_width() == amp_width,
    {
        EntityTable { ents: Vec::new(), theta_width: theta_width, amp_width: amp_width }
    }

    /// How many entities are tracked.
    pub fn len(&self) -> (n: usize)
        ensures
            n == self@.len(),
    {
        self.ents.len()
    }

    /// The entity at a position, for inspection.
    pub fn entity_at(&self, i: usize) -> (e: &Entity)
        requires
            i < self@.len(),
        ensures
            *e == self@[i as int],
    {
        &self.ents[i]
    }

    /// Take the first entity out of the table.
    pub fn remove_front(&mut self) -> (e: Entity)
        requires
            old(self)@.len() > 0,
        ensures
            e == old(self)@[0],
            final(self)@ == old(self)@.drop_first(),
            final(self).spec_theta_width() == old(self).spec_theta_width(),
            final(self).spec_amp_width() == old(self).spec_amp_width(),
    {
        let e = self.ents.remove(0);
        proof {
            assert(self.ents@ =~= old(self)@.drop_first());
        }
        e
    }

    /// Replace the whole population of the table; the rows must fit
    /// its widths and the addresses must stay unique.
    pub fn replace_all(&mut self, ents: Vec<Entity>)
        requires
            forall|i: int, j: int|
                0 <= i < j < ents@.len() ==> (#[trigger] ents@[i]).addr != (#[trigger] ents@[j]).addr,
            forall|i: int|
                0 <= i < ents@.len() ==> (#[trigger] ents@[i]).wf(
                    old(self).spec_theta_width() as int,
                    old(self).spec_amp_width() as int,
                ),
            forall|i: int| 0 <= i < ents@.len() ==> cpr_fields_ok(#[trigger] ents@[i]),
        ensures
            final(self).wf(),
            final(self)@ == ents@,
            final(self).spec_theta_width() == old(self).spec_theta_width(),
            final(self).spec_amp_width() == old(self).spec_amp_width(),
    {
        self.ents = ents;
    }

    /// The entity for an address, for inspection.
    pub fn get_by_addr(&self, addr: u32) -> (r: Option<&Entity>)
        ensures
            find_addr(self@, addr) >= 0 ==> r == Some(&self@[find_addr(self@, addr)]),
            find_addr(self@, addr) == -1 ==> r is None,
    {
        let n = self.ents.len();
        for k in 0..n
            invariant
                n == self@.len(),
                find_addr(self@, addr) == find_from(self@, addr, k as int),
        {
            if self.ents[k].addr == addr {
                return Some(&self.ents[k]);
            }
        }
        None
    }
}

/// Pending CPR frames carry raw coordinates below 2^17.
pub open spec fn cpr_fields_ok(e: Entity) -> bool {
    &&& (e.odd_cpr matches Some(t) ==> t.0 < 131072 && t.1 < 131072)
    &&& (e.even_cpr matches Some(t) ==> t.0 < 131072 && t.1 < 131072)
}

/// Create a blank entity for `addr` at the end of the table unless one
/// exists; either way return its position.
pub fn init_entity_if_not(addr: u32, entities: &mut EntityTable) -> (i: usize)
    requires
        old(entities).wf(),
        old(entities)@.len() < usize::MAX,
    ensures
        final(entities).wf(),
        final(entities).spec_theta_width() == old(entities).spec_theta_width(),
        final(entities).spec_amp_width() == old(entities).spec_amp_width(),
        find_addr(old(entities)@, addr) >= 0 ==> final(entities)@ == old(entities)@ && i
            == find_addr(old(entities)@, addr),
        find_addr(old(entities)@, addr) == -1 ==> {
            &&& final(entities)@.len() == old(entities)@.len() + 1
            &&& forall|j: int|
                0 <= j < old(entities)@.len() ==> final(entities)@[j] == old(entities)@[j]
            &&& i == old(entities)@.len()
            &&& fresh_entity_ok(final(entities)@[i as int], addr)
        },
        final(entities)@[i as int].addr == addr,
        i < final(entities)@.len(),
{
    let n = entities.ents.len();
    proof {
        lemma_find_props(entities@, addr, 0);
    }
    for k in 0..n
        invariant
            *entities == *old(entities),
            old(entities).wf(),
            old(entities)@.len() < usize::MAX,
            n == entities@.len(),
            find_addr(entities@, addr) == find_from(entities@, addr, k as int),
    {
        if entities.ents[k].addr == addr {
            proof {
                lemma_find_props(entities@, addr, 0);
            }
            return k;
        }
    }
    let e = Entity {
        addr: addr,
        odd_cpr: None,
        even_cpr: None,
        lat_e6: None,
        lon_e6: None,
        alt: None,
        flight: None,
        last_update: 0u64,
        aircraft_type: None,
        thetas: Vec::new(),
        snrs: Vec::new(),
        amps: Vec::new(),
        message_count: 0,
        inbeam: 0,
    };
    entities.ents.push(e);
    n
}

/// Whether a decoded payload updates the entity table: surface
/// positions and unclassified payloads do not.
pub open spec fn msg_relevant(sp: MessageSpecific) -> bool {
    ||| sp is AircraftIdenAndCat
    ||| sp is AirbornePositionMessage
    ||| sp is AirborneVelocityMessage
    ||| sp is AirborneVelocityMessageShort
}

/// The transponder address a relevant payload speaks of.
pub open spec fn msg_addr(sp: MessageSpecific) -> u32 {
    match sp {
        MessageSpecific::AircraftIdenAndCat { hdr, .. } => hdr.addr,
        MessageSpecific::AirbornePositionMessage { hdr, .. } => hdr.addr,
        MessageSpecific::AirborneVelocityMessage { hdr, .. } => hdr.addr,
        MessageSpecific::AirborneVelocityMessageShort { hdr, .. } => hdr.addr,
        _ => 0,
    }
}

/// The position fields a message may carry stay inside the 17-bit
/// raw-coordinate range.
pub open spec fn msg_raw_ok(sp: MessageSpecific) -> bool {
    match sp {
        MessageSpecific::AirbornePositionMessage { raw_lat, raw_lon, .. } => raw_lat < 131072
            && raw_lon < 131072,
        _ => true,
    }
}

/// The position outcome after a CPR frame lands: when both frames are
/// pending and within ten seconds of each other, a successful global
/// decode replaces the stored position; otherwise it stays.
pub open spec fn cpr_outcome_ok(
    even: Option<(u32, u32, u64)>,
    odd: Option<(u32, u32, u64)>,
    lat0: Option<i64>,
    lon0: Option<i64>,
    lat2: Option<i64>,
    lon2: Option<i64>,
) -> bool {
    match (even, odd) {
        (Some(a), Some(b)) => {
            let delta = if a.2 > b.2 {
                a.2 - b.2
            } else {
                b.2 - a.2
            };
            if delta / (SAMPLE_RATE as int) <= 10 {
                match spec_decode_cpr(a, b) {
                    Some(p) => lat2 == Some(p.0) && lon2 == Some(p.1),
                    None => lat2 == lat0 && lon2 == lon0,
                }
            } else {
                lat2 == lat0 && lon2 == lon0
            }
        },
        _ => lat2 == lat0 && lon2 == lon0,
    }
}

/// What one relevant message does to the entity for its address, given
/// the entity's prior field values (blank values for a new record):
/// counters bump, the observation lands in front of the windows, and
/// the payload's own fields are stored.
pub open spec fn entity_step_full(
    e2: Entity,
    m: Message,
    hit: bool,
    gsi: u64,
    depth: usize,
    count0: u64,
    inbeam0: u64,
    th0: Seq<Vec<i32>>,
    sn0: Seq<u32>,
    am0: Seq<Vec<u32>>,
    last0: u64,
    flight0: Option<Vec<char>>,
    type0: Option<u8>,
    alt0: Option<i32>,
    odd0: Option<(u32, u32, u64)>,
    even0: Option<(u32, u32, u64)>,
    lat0: Option<i64>,
    lon0: Option<i64>,
) -> bool {
    &&& e2.addr == msg_addr(m.specific)
    &&& e2.message_count == spec_bump(count0, true)
    &&& e2.inbeam == spec_bump(inbeam0, hit)
    &&& e2.thetas@ == trim(th0.insert(0, m.common.thetas_micro), depth as int)
    &&& e2.snrs@ == trim(sn0.insert(0, m.common.snr_milli), depth as int)
    &&& e2.amps@ == trim(am0.insert(0, m.common.amplitudes_milli), depth as int)
    &&& match m.specific {
        MessageSpecific::AircraftIdenAndCat { hdr: _, aircraft_type, flight } => {
            &&& e2.last_update == gsi
            &&& e2.flight == Some(flight)
            &&& e2.aircraft_type == Some(aircraft_type)
            &&& e2.alt == alt0
            &&& e2.odd_cpr == odd0
            &&& e2.even_cpr == even0
            &&& e2.lat_e6 == lat0
            &&& e2.lon_e6 == lon0
        },
        MessageSpecific::AirbornePositionMessage {
            hdr: _,
            f_flag,
            t_flag: _,
            altitude,
            raw_lat,
            raw_lon,
        } => {
            &&& e2.last_update == gsi
            &&& e2.alt == Some(altitude)
            &&& e2.flight == flight0
            &&& e2.aircraft_type == type0
            &&& e2.odd_cpr == (if f_flag {
                Some((raw_lat, raw_lon, gsi))
            } else {
                odd0
            })
            &&& e2.even_cpr == (if f_flag {
                even0
            } else {
                Some((raw_lat, raw_lon, gsi))
            })
            &&& cpr_outcome_ok(e2.even_cpr, e2.odd_cpr, lat0, lon0, e2.lat_e6, e2.lon_e6)
        },
        MessageSpecific::AirborneVelocityMessage { .. } => {
            &&& e2.last_update == last0
            &&& e2.flight == flight0
            &&& e2.aircraft_type == type0
            &&& e2.alt == alt0
            &&& e2.odd_cpr == odd0
            &&& e2.even_cpr == even0
            &&& e2.lat_e6 == lat0
            &&& e2.lon_e6 == lon0
        },
        MessageSpecific::AirborneVelocityMessageShort { .. } => {
            &&& e2.last_update == last0
            &&& e2.flight == flight0
            &&& e2.aircraft_type == type0
            &&& e2.alt == alt0
            &&& e2.odd_cpr == odd0
            &&& e2.even_cpr == even0
            &&& e2.lat_e6 == lat0
            &&& e2.lon_e6 == lon0
        },
        _ => false,
    }
}

/// One message's step on an existing entity.
pub open spec fn entity_step_ok(e1: Entity, e2: Entity, m: Message, hit: bool, gsi: u64, depth: usize) -> bool {
    entity_step_full(
        e2,
        m,
        hit,
        gsi,
        depth,
        e1.message_count,
        e1.inbeam,
        e1.thetas@,
        e1.snrs@,
        e1.amps@,
        e1.last_update,
        e1.flight,
        e1.aircraft_type,
        e1.alt,
        e1.odd_cpr,
        e1.even_cpr,
        e1.lat_e6,
        e1.lon_e6,
    )
}

/// One message's step starting from a blank record.
pub open spec fn entity_fresh_step_ok(e2: Entity, m: Message, hit: bool, gsi: u64, depth: usize) -> bool {
    entity_step_full(
        e2,
        m,
        hit,
        gsi,
        depth,
        0,
        0,
        Seq::empty(),
        Seq::empty(),
        Seq::empty(),
        0,
        None,
        None,
        None,
        None,
        None,
        None,
        None,
    )
}

/// The two pipe-manager states describe the same pool and bindings.
pub open spec fn pm_same(pm1: PipeManagement, pm2: PipeManagement) -> bool {
    &&& pm2.addr_map() == pm1.addr_map()
    &&& pm2.slots() == pm1.slots()
    &&& pm2.spec_thread_count() == pm1.spec_thread_count()
    &&& pm2.spec_pipe_count() == pm1.spec_pipe_count()
}

/// What binding the address after a message does to the pool: nothing
/// without a usable average (`bind` false) or when the address is
/// already bound; otherwise the lowest free slot is taken, if any.
pub open spec fn pipe_step_ok(pm1: PipeManagement, pm2: PipeManagement, a: u32, bind: bool) -> bool {
    &&& pm2.spec_thread_count() == pm1.spec_thread_count()
    &&& pm2.spec_pipe_count() == pm1.spec_pipe_count()
    &&& if !bind || pm1.addr_map().contains_key(a) {
        pm2.addr_map() == pm1.addr_map() && pm2.slots() == pm1.slots()
    } else {
        let x = first_free_from(pm1.slots(), 0);
        if x >= 0 {
            &&& pm2.addr_map() == pm1.addr_map().insert(
                a,
                (
                    ((x / pm1.spec_pipe_count() as int)) as usize,
                    ((x % pm1.spec_pipe_count() as int)) as usize,
                ),
            )
            &&& pm2.slots() == pm1.slots().update(x, Some(a))
        } else {
            pm2.addr_map() == pm1.addr_map() && pm2.slots() == pm1.slots()
        }
    }
}

/// One tracker step: the effect of a single `(buffer index, message)`
/// pair on the entity table and the pipe pool.
pub open spec fn track_step_ok(
    s1: Seq<Entity>,
    pm1: PipeManagement,
    item: (u64, Message),
    bsi: u64,
    sc: u32,
    depth: usize,
    s2: Seq<Entity>,
    pm2: PipeManagement,
) -> bool {
    let m = item.1;
    if !msg_relevant(m.specific) {
        s2 == s1 && pm_same(pm1, pm2)
    } else {
        let a = msg_addr(m.specific);
        let gsi = (item.0 + bsi) as u64;
        let hit = inbeam_hit(pm1, a, m.common.pipe_ndx);
        let i = find_addr(s1, a);
        if i >= 0 {
            &&& s2.len() == s1.len()
            &&& forall|j: int| 0 <= j < s1.len() && j != i ==> s2[j] == s1[j]
            &&& entity_step_ok(s1[i], s2[i], m, hit, gsi, depth)
            &&& pipe_step_ok(pm1, pm2, a, spec_total_weight(s2[i].snrs@, sc) > 0)
        } else {
            &&& s2.len() == s1.len() + 1
            &&& forall|j: int| 0 <= j < s1.len() ==> s2[j] == s1[j]
            &&& entity_fresh_step_ok(s2[s1.len() as int], m, hit, gsi, depth)
            &&& pipe_step_ok(pm1, pm2, a, spec_total_weight(s2[s1.len() as int].snrs@, sc) > 0)
        }
    }
}

/// The tracker's multi-step relation: processing the messages in order
/// takes the first state to the second.
pub open spec fn track_steps_ok(
    s1: Seq<Entity>,
    pm1: PipeManagement,
    msgs: Seq<(u64, Message)>,
    bsi: u64,
    sc: u32,
    depth: usize,
    s2: Seq<Entity>,
    pm2: PipeManagement,
) -> bool
    decreases msgs.len(),
{
    if msgs.len() == 0 {
        s2 == s1 && pm_same(pm1, pm2)
    } else {
        exists|mid_s: Seq<Entity>, mid_pm: PipeManagement|
            #[trigger] track_step_ok(s1, pm1, msgs[0], bsi, sc, depth, mid_s, mid_pm)
                && track_steps_ok(mid_s, mid_pm, msgs.drop_first(), bsi, sc, depth, s2, pm2)
    }
}

proof fn lemma_track_step_same_start(
    s1: Seq<Entity>,
    pm1: PipeManagement,
    pm1b: PipeManagement,
    item: (u64, Message),
    bsi: u64,
    sc: u32,
    depth: usize,
    s2: Seq<Entity>,
    pm2: PipeManagement,
)
    requires
        pm_same(pm1, pm1b),
        track_step_ok(s1, pm1b, item, bsi, sc, depth, s2, pm2),
    ensures
        track_step_ok(s1, pm1, item, bsi, sc, depth, s2, pm2),
{
}

proof fn lemma_track_steps_push(
    s0: Seq<Entity>,
    pm0: PipeManagement,
    msgs: Seq<(u64, Message)>,
    bsi: u64,
    sc: u32,
    depth: usize,
    s1: Seq<Entity>,
    pm1: PipeManagement,
    item: (u64, Message),
    s2: Seq<Entity>,
    pm2: PipeManagement,
)
    requires
        track_steps_ok(s0, pm0, msgs, bsi, sc, depth, s1, pm1),
        track_step_ok(s1, pm1, item, bsi, sc, depth, s2, pm2),
    ensures
        track_steps_ok(s0, pm0, msgs.push(item), bsi, sc, depth, s2, pm2),
    decreases msgs.len(),
{
    let pushed = msgs.push(item);
    if msgs.len() == 0 {
        assert(s1 == s0);
        lemma_track_step_same_start(s0, pm0, pm1, item, bsi, sc, depth, s2, pm2);
        assert(pushed[0] == item);
        assert(pushed.drop_first() =~= Seq::<(u64, Message)>::empty());
        assert(track_steps_ok(s2, pm2, pushed.drop_first(), bsi, sc, depth, s2, pm2));
    } else {
        let (mid_s, mid_pm) = choose|mid_s: Seq<Entity>, mid_pm: PipeManagement|
            #[trigger] track_step_ok(s0, pm0, msgs[0], bsi, sc, depth, mid_s, mid_pm)
                && track_steps_ok(mid_s, mid_pm, msgs.drop_first(), bsi, sc, depth, s1, pm1);
        lemma_track_steps_push(
            mid_s,
            mid_pm,
            msgs.drop_first(),
            bsi,
            sc,
            depth,
            s1,
            pm1,
            item,
            s2,
            pm2,
        );
        assert(pushed[0] == msgs[0]);
        assert(pushed.drop_first() =~= msgs.drop_first().push(item));
        assert(track_step_ok(s0, pm0, pushed[0], bsi, sc, depth, mid_s, mid_pm)
            && track_steps_ok(mid_s, mid_pm, pushed.drop_first(), bsi, sc, depth, s2, pm2));
    }
}

/// Every message in a batch is within the widths, ranges and index
/// bounds the tracker stores.
pub open spec fn msgs_ok(msgs: Seq<(u64, Message)>, tw: int, aw: int, bsi: u64) -> bool {
    forall|k: int|
        0 <= k < msgs.len() ==> {
            let m = (#[trigger] msgs[k]).1;
            &&& msgs[k].0 + bsi <= u64::MAX
            &&& theta_row_ok(m.common.thetas_micro, tw)
            &&& m.common.amplitudes_milli@.len() == aw
            &&& msg_raw_ok(m.specific)
        }
}

/// A blank record: no observations, no decoded state, counters zero.
pub open spec fn fresh_entity_ok(e: Entity, addr: u32) -> bool {
    &&& e.addr == addr
    &&& e.odd_cpr is None
    &&& e.even_cpr is None
    &&& e.lat_e6 is None
    &&& e.lon_e6 is None
    &&& e.alt is None
    &&& e.flight is None
    &&& e.aircraft_type is None
    &&& e.last_update == 0
    &&& e.message_count == 0
    &&& e.thetas@.len() == 0
    &&& e.snrs@.len() == 0
    &&& e.amps@.len() == 0
    &&& e.inbeam == 0
}


/// Every SNR-weight sum is non-negative.
pub proof fn lemma_wsum_nonneg(snrs: Seq<u32>, sc: u32, n: int)
    ensures
        wsum_to(snrs, sc, n) >= 0,
    decreases n,
{
    if n > 0 {
        lemma_wsum_nonneg(snrs, sc, n - 1);
        assert((snrs[n - 1] as int) * (sc as int) >= 0) by (nonlinear_arith);
    }
}

proof fn lemma_theta_wsum_constant(
    th: Seq<Vec<i32>>,
    snrs: Seq<u32>,
    sc: u32,
    x: int,
    t: i32,
    n: int,
)
    requires
        0 <= n <= th.len(),
        th.len() == snrs.len(),
        forall|y: int| 0 <= y < th.len() ==> 0 <= x < (#[trigger] th[y])@.len(),
        forall|y: int| 0 <= y < th.len() ==> #[trigger] th[y]@[x] == t,
    ensures
        theta_wsum_to(th, snrs, sc, x, n) == (t as int) * wsum_to(snrs, sc, n),
    decreases n,
{
    if n <= 0 {
        assert((t as int) * 0 == 0) by (nonlinear_arith);
    } else {
        assert(th[n - 1]@[x] == t);
        lemma_theta_wsum_constant(th, snrs, sc, x, t, n - 1);
        let w = (snrs[n - 1] as int) * (sc as int);
        let prev = wsum_to(snrs, sc, n - 1);
        assert((t as int) * (snrs[n - 1] as int) * (sc as int) == (t as int) * w
            && (t as int) * prev + (t as int) * w == (t as int) * (prev + w)) by (nonlinear_arith)
            requires
                w == (snrs[n - 1] as int) * (sc as int),
        ;
    }
}

/// When every row of the window carries the same angle at coordinate
/// `x`, the weighted average at `x` is exactly that angle, whatever the
/// SNR weights: the steering vector a steady observation converges to
/// is the observation itself.
pub proof fn lemma_weighted_avg_of_constant(
    th: Seq<Vec<i32>>,
    snrs: Seq<u32>,
    sc: u32,
    x: int,
    t: i32,
)
    requires
        th.len() == snrs.len(),
        forall|y: int| 0 <= y < th.len() ==> 0 <= x < (#[trigger] th[y])@.len(),
        forall|y: int| 0 <= y < th.len() ==> #[trigger] th[y]@[x] == t,
        -4000000 <= t <= 4000000,
        spec_total_weight(snrs, sc) > 0,
    ensures
        spec_theta_avg(th, snrs, sc, x) == t,
{
    let n = th.len() as int;
    let w = spec_total_weight(snrs, sc);
    lemma_theta_wsum_constant(th, snrs, sc, x, t, n);
    assert(theta_wsum_to(th, snrs, sc, x, n) == (t as int) * w);
    if t >= 0 {
        assert((t as int) * w >= 0) by (nonlinear_arith)
            requires
                t >= 0 && w > 0,
        ;
        assert((t as int) * w == w * (t as int)) by (nonlinear_arith);
        vstd::arithmetic::div_mod::lemma_div_multiples_vanish(t as int, w);
        assert(trunc_div((t as int) * w, w) == t);
    } else {
        assert((t as int) * w < 0 && -((t as int) * w) == (-(t as int)) * w && (-(t as int)) * w
            == w * (-(t as int))) by (nonlinear_arith)
            requires
                t < 0 && w > 0,
        ;
        vstd::arithmetic::div_mod::lemma_div_multiples_vanish(-(t as int), w);
        assert(trunc_div((t as int) * w, w) == t);
    }
}

/// Process one buffer's merged, decoded messages: create or update the
/// entity each speaks of, collect the observation windows, and rebind
/// each address's pipe to the refreshed weighted-average steering
/// vector.  Returns the commands to deliver to the workers.
#[verifier::rlimit(100)]
pub fn process_messages(
    messages: Vec<(u64, Message)>,
    entities: &mut EntityTable,
    buffer_start_sample_index: u64,
    pipe_mgmt: &mut PipeManagement,
    snr_scaler: u32,
    weighted_avg_depth: usize,
) -> (cmds: Vec<(usize, ThreadTxMessage)>)
    requires
        old(entities).wf(),
        old(pipe_mgmt).wf(),
        1 <= weighted_avg_depth <= 65536,
        msgs_ok(
            messages@,
            old(entities).spec_theta_width() as int,
            old(entities).spec_amp_width() as int,
            buffer_start_sample_index,
        ),
        old(entities)@.len() + messages@.len() < usize::MAX,
    ensures
        final(entities).wf(),
        final(pipe_mgmt).wf(),
        final(entities).spec_theta_width() == old(entities).spec_theta_width(),
        final(entities).spec_amp_width() == old(entities).spec_amp_width(),
        track_steps_ok(
            old(entities)@,
            *old(pipe_mgmt),
            messages@,
            buffer_start_sample_index,
            snr_scaler,
            weighted_avg_depth,
            final(entities)@,
            *final(pipe_mgmt),
        ),
        forall|k: int|
            0 <= k < cmds@.len() ==> (#[trigger] cmds@[k]).0 < old(pipe_mgmt).spec_thread_count(),
{
    let ghost all = messages@;
    let ghost s0 = entities@;
    let ghost pm0 = *pipe_mgmt;
    let ghost tw = entities.spec_theta_width() as int;
    let ghost aw = entities.spec_amp_width() as int;
    let mut messages = messages;
    let mut cmds: Vec<(usize, ThreadTxMessage)> = Vec::new();

    proof {
        assert(all.take(0) =~= Seq::<(u64, Message)>::empty());
        assert(all.take((all.len() - messages@.len()) as int) + messages@ =~= all);
    }

    while messages.len() > 0
        invariant
            entities.wf(),
            pipe_mgmt.wf(),
            entities.spec_theta_width() as int == tw,
            entities.spec_amp_width() as int == aw,
            1 <= weighted_avg_depth <= 65536,
            messages@.len() <= all.len(),
            all == all.take((all.len() - messages@.len()) as int) + messages@,
            msgs_ok(messages@, tw, aw, buffer_start_sample_index),
            s0.len() + all.len() < usize::MAX,
            entities@.len() <= s0.len() + (all.len() - messages@.len()),
            track_steps_ok(
                s0,
                pm0,
                all.take((all.len() - messages@.len()) as int),
                buffer_start_sample_index,
                snr_scaler,
                weighted_avg_depth,
                entities@,
                *pipe_mgmt,
            ),
            pipe_mgmt.spec_thread_count() == pm0.spec_thread_count(),
            forall|k: int|
                0 <= k < cmds@.len() ==> (#[trigger] cmds@[k]).0 < pm0.spec_thread_count(),
        decreases messages@.len(),
    {
        let ghost k = (all.len() - messages@.len()) as int;
        let ghost s_pre = entities@;
        let ghost pm_pre = *pipe_mgmt;
        let ghost msgs_pre = messages@;
        let item = messages.remove(0);
        let ghost gitem = item;
        proof {
            assert(gitem == all[k]) by {
                assert(all == all.take(k) + msgs_pre);
                assert(msgs_pre[0] == all[k]);
            }
            assert(all.take(k + 1) =~= all.take(k).push(gitem));
            assert(messages@ =~= msgs_pre.drop_first());
        }
        let (buffer_sample_index, m) = item;
        let sample_index = buffer_sample_index + buffer_start_sample_index;

        let addr_opt: Option<u32> = match &m.specific {
            MessageSpecific::AircraftIdenAndCat { hdr, .. } => Some(hdr.addr),
            MessageSpecific::AirbornePositionMessage { hdr, .. } => Some(hdr.addr),
            MessageSpecific::AirborneVelocityMessage { hdr, .. } => Some(hdr.addr),
            MessageSpecific::AirborneVelocityMessageShort { hdr, .. } => Some(hdr.addr),
            _ => None,
        };

        match addr_opt {
            None => {
                proof {
                    assert(!msg_relevant(gitem.1.specific));
                    assert(track_step_ok(
                        s_pre,
                        pm_pre,
                        gitem,
                        buffer_start_sample_index,
                        snr_scaler,
                        weighted_avg_depth,
                        entities@,
                        *pipe_mgmt,
                    ));
                    lemma_track_steps_push(
                        s0,
                        pm0,
                        all.take(k),
                        buffer_start_sample_index,
                        snr_scaler,
                        weighted_avg_depth,
                        s_pre,
                        pm_pre,
                        gitem,
                        entities@,
                        *pipe_mgmt,
                    );
                }
            },
            Some(addr) => {
                proof {
                    assert(msg_relevant(gitem.1.specific) && addr == msg_addr(gitem.1.specific));
                    lemma_find_props(s_pre, addr, 0);
                }
                let i = init_entity_if_not(addr, entities);
                let ghost s_init = entities@;
                let ghost found = find_addr(s_pre, addr) >= 0;
                let mut ent = entities.ents.remove(i);
                let ghost e1 = ent;

                if ent.message_count < 0xffffffffffffffff {
                    ent.message_count = ent.message_count + 1;
                }
                ent.check_if_in_beam(pipe_mgmt, m.common.pipe_ndx);
                let ghost hit = inbeam_hit(pm_pre, addr, m.common.pipe_ndx);

                match m.specific {
                    MessageSpecific::AircraftIdenAndCat { hdr: _, aircraft_type, flight } => {
                        ent.last_update = sample_index;
                        ent.flight = Some(flight);
                        ent.aircraft_type = Some(aircraft_type);
                    },
                    MessageSpecific::AirbornePositionMessage {
                        hdr: _,
                        f_flag,
                        t_flag: _,
                        altitude,
                        raw_lat,
                        raw_lon,
                    } => {
                        ent.last_update = sample_index;
                        ent.alt = Some(altitude);
                        if f_flag {
                            ent.odd_cpr = Some((raw_lat, raw_lon, sample_index));
                        } else {
                            ent.even_cpr = Some((raw_lat, raw_lon, sample_index));
                        }
                        match (ent.even_cpr, ent.odd_cpr) {
                            (Some(a), Some(b)) => {
                                let delta = if a.2 > b.2 {
                                    a.2 - b.2
                                } else {
                                    b.2 - a.2
                                };
                                if delta / SAMPLE_RATE <= 10 {
                                    match decode_cpr(a, b) {
                                        Some((la, lo)) => {
                                            ent.lat_e6 = Some(la);
                                            ent.lon_e6 = Some(lo);
                                        },
                                        None => (),
                                    }
                                }
                            },
                            _ => (),
                        }
                    },
                    MessageSpecific::AirborneVelocityMessage { .. } => (),
                    MessageSpecific::AirborneVelocityMessageShort { .. } => (),
                    _ => (),
                }

                let avg = ent.push_theta_cap_avg(
                    m.common.snr_milli,
                    m.common.thetas_micro,
                    m.common.amplitudes_milli,
                    weighted_avg_depth,
                    snr_scaler,
                );
                let ghost e2 = ent;
                entities.ents.insert(i, ent);
                proof {
                    assert(entities@ =~= s_init.update(i as int, e2));
                    if found {
                        assert(entity_step_ok(
                            s_pre[i as int],
                            e2,
                            gitem.1,
                            hit,
                            sample_index,
                            weighted_avg_depth,
                        ));
                    } else {
                        assert(e1.thetas@ =~= Seq::<Vec<i32>>::empty());
                        assert(e1.snrs@ =~= Seq::<u32>::empty());
                        assert(e1.amps@ =~= Seq::<Vec<u32>>::empty());
                        assert(entity_fresh_step_ok(
                            e2,
                            gitem.1,
                            hit,
                            sample_index,
                            weighted_avg_depth,
                        ));
                    }
                }

                match avg {
                    Some((ta, aa)) => {
                        proof {
                            lemma_wsum_nonneg(e2.snrs@, snr_scaler, e2.snrs@.len() as int);
                        }
                        let (_bound, cmdo) = pipe_mgmt.set_addr_to_theta(addr, ta, Some(aa));
                        match cmdo {
                            Some(c) => {
                                proof {
                                    assert(pipe_mgmt.addr_map().contains_key(addr));
                                    assert(c.0 == pipe_mgmt.addr_map()[addr].0);
                                }
                                cmds.push(c);
                            },
                            None => (),
                        }
                    },
                    None => (),
                }

                proof {
                    assert(pipe_step_ok(
                        pm_pre,
                        *pipe_mgmt,
                        addr,
                        spec_total_weight(e2.snrs@, snr_scaler) > 0,
                    ));
                    assert(track_step_ok(
                        s_pre,
                        pm_pre,
                        gitem,
                        buffer_start_sample_index,
                        snr_scaler,
                        weighted_avg_depth,
                        entities@,
                        *pipe_mgmt,
                    ));
                    lemma_track_steps_push(
                        s0,
                        pm0,
                        all.take(k),
                        buffer_start_sample_index,
                        snr_scaler,
                        weighted_avg_depth,
                        s_pre,
                        pm_pre,
                        gitem,
                        entities@,
                        *pipe_mgmt,
                    );
                }
            },
        }
    }
    proof {
        assert(all.take(all.len() as int) =~= all);
    }
    cmds
}


/// An entity is stale when its last update lies more than sixty
/// seconds of samples behind the current stream index.
pub open spec fn spec_stale(e: Entity, now: u64) -> bool {
    e.last_update <= now && ((now - e.last_update) as int) / (SAMPLE_RATE as int) > 60
}

proof fn lemma_evicted_prefix(s: Seq<Entity>, k: int, a: u32, now: u64)
    requires
        0 <= k < s.len(),
        !evicted_addr(s.take(k + 1), a, now),
    ensures
        !evicted_addr(s.take(k), a, now),
{
    if evicted_addr(s.take(k), a, now) {
        let i = choose|i: int|
            0 <= i < s.take(k).len() && (#[trigger] s.take(k)[i]).addr == a && spec_stale(
                s.take(k)[i],
                now,
            );
        assert(s.take(k + 1)[i] == s.take(k)[i]);
        assert(evicted_addr(s.take(k + 1), a, now));
    }
}

/// Whether an entity is stale at the given stream index.
fn is_stale(e: &Entity, now: u64) -> (r: bool)
    ensures
        r == spec_stale(*e, now),
{
    e.last_update <= now && (now - e.last_update) / SAMPLE_RATE > 60
}

/// The entities that survive an eviction pass, in order.
pub open spec fn spec_kept(s: Seq<Entity>, now: u64) -> Seq<Entity>
    decreases s.len(),
{
    if s.len() == 0 {
        s
    } else if spec_stale(s.last(), now) {
        spec_kept(s.drop_last(), now)
    } else {
        spec_kept(s.drop_last(), now).push(s.last())
    }
}

/// Some stale entity in the sequence carries address `a`.
pub open spec fn evicted_addr(s: Seq<Entity>, a: u32, now: u64) -> bool {
    exists|i: int| 0 <= i < s.len() && (#[trigger] s[i]).addr == a && spec_stale(s[i], now)
}

/// An eviction pass: remove every stale entity and release any pipe
/// slot bound to it.  Bindings and slots of surviving addresses are
/// untouched; returns the release commands to deliver.
#[verifier::rlimit(60)]
pub fn evict_stale(
    entities: &mut EntityTable,
    pipe_mgmt: &mut PipeManagement,
    now_sample_index: u64,
) -> (cmds: Vec<(usize, ThreadTxMessage)>)
    requires
        old(entities).wf(),
        old(pipe_mgmt).wf(),
    ensures
        final(entities).wf(),
        final(pipe_mgmt).wf(),
        final(entities).spec_theta_width() == old(entities).spec_theta_width(),
        final(entities).spec_amp_width() == old(entities).spec_amp_width(),
        final(pipe_mgmt).spec_thread_count() == old(pipe_mgmt).spec_thread_count(),
        final(pipe_mgmt).spec_pipe_count() == old(pipe_mgmt).spec_pipe_count(),
        final(entities)@ == spec_kept(old(entities)@, now_sample_index),
        forall|k: int|
            0 <= k < cmds@.len() ==> (#[trigger] cmds@[k]).0 < old(pipe_mgmt).spec_thread_count(),
        forall|i: int|
            0 <= i < old(entities)@.len()
                && spec_stale(#[trigger] old(entities)@[i], now_sample_index)
                ==> !final(pipe_mgmt).addr_map().contains_key(old(entities)@[i].addr),
        forall|i: int|
            0 <= i < old(entities)@.len()
                && spec_stale(#[trigger] old(entities)@[i], now_sample_index)
                && old(pipe_mgmt).addr_map().contains_key(old(entities)@[i].addr)
                ==> (final(pipe_mgmt).slots()[old(pipe_mgmt).global_ndx(old(entities)@[i].addr)]
                is None),
        forall|a: u32|
            !evicted_addr(old(entities)@, a, now_sample_index)
                ==> (final(pipe_mgmt).addr_map().contains_key(a) <==> old(
                pipe_mgmt,
            ).addr_map().contains_key(a)) && (old(pipe_mgmt).addr_map().contains_key(a)
                ==> final(pipe_mgmt).addr_map()[a] == old(pipe_mgmt).addr_map()[a]),
{
    let ghost s_all = entities@;
    let ghost pm0 = *pipe_mgmt;
    let ghost now = now_sample_index;
    let mut kept: Vec<Entity> = Vec::new();
    let mut cmds: Vec<(usize, ThreadTxMessage)> = Vec::new();
    let n = entities.len();
    let ghost tw = entities.spec_theta_width() as int;
    let ghost aw = entities.spec_amp_width() as int;

    proof {
        assert(s_all.take(0) =~= Seq::<Entity>::empty());
        assert(s_all.skip(0) =~= s_all);
    }

    for k in 0..n
        invariant
            now == now_sample_index,
            n == s_all.len(),
            entities@ == s_all.skip(k as int),
            entities.spec_theta_width() as int == tw,
            entities.spec_amp_width() as int == aw,
            pipe_mgmt.wf(),
            pipe_mgmt.spec_thread_count() == pm0.spec_thread_count(),
            pipe_mgmt.spec_pipe_count() == pm0.spec_pipe_count(),
            old(entities).wf(),
            old(entities)@ == s_all,
            pm0.wf(),
            pm0 == *old(pipe_mgmt),
            kept@ == spec_kept(s_all.take(k as int), now),
            forall|c: int| 0 <= c < cmds@.len() ==> (#[trigger] cmds@[c]).0 < pm0.spec_thread_count(),
            forall|i: int|
                0 <= i < k && spec_stale(#[trigger] s_all[i], now)
                    ==> !pipe_mgmt.addr_map().contains_key(s_all[i].addr),
            forall|i: int|
                0 <= i < k && spec_stale(#[trigger] s_all[i], now)
                    && pm0.addr_map().contains_key(s_all[i].addr) ==> pipe_mgmt.slots()[
                    pm0.global_ndx(s_all[i].addr)
                ] is None,
            forall|a: u32|
                #![trigger pm0.addr_map().contains_key(a)]
                !evicted_addr(s_all.take(k as int), a, now) ==> (pipe_mgmt.addr_map().contains_key(
                    a,
                ) <==> pm0.addr_map().contains_key(a)) && (pm0.addr_map().contains_key(a)
                    ==> pipe_mgmt.addr_map()[a] == pm0.addr_map()[a]),
    {
        let ghost pm_pre = *pipe_mgmt;
        let e = entities.remove_front();
        let ghost ge = e;
        proof {
            assert(ge == s_all[k as int]);
            assert(s_all.take(k as int + 1) =~= s_all.take(k as int).push(ge));
            assert(s_all.take(k as int + 1).drop_last() =~= s_all.take(k as int));
            assert(entities@ =~= s_all.skip(k as int + 1));
        }
        let stale = is_stale(&e, now_sample_index);
        assert(stale == spec_stale(ge, now));
        if stale {
            proof {
                if pm_pre.addr_map().contains_key(ge.addr) {
                    assert(pm_pre.addr_map()[ge.addr].0 < pm_pre.spec_thread_count());
                }
            }
            match pipe_mgmt.unset_addr(e.addr) {
                Some(c) => cmds.push(c),
                None => (),
            }
            proof {
                assert forall|a: u32| !evicted_addr(s_all.take(k as int + 1), a, now) implies (
                pipe_mgmt.addr_map().contains_key(a) <==> pm0.addr_map().contains_key(a)) && (
                pm0.addr_map().contains_key(a) ==> pipe_mgmt.addr_map()[a] == pm0.addr_map()[a]) by {
                    lemma_evicted_prefix(s_all, k as int, a, now);
                    assert(a != ge.addr) by {
                        assert(s_all.take(k as int + 1)[k as int] == ge);
                    }
                }
                assert forall|i: int|
                    0 <= i < k + 1 && spec_stale(#[trigger] s_all[i], now)
                        && pm0.addr_map().contains_key(s_all[i].addr) implies pipe_mgmt.slots()[
                    pm0.global_ndx(s_all[i].addr)
                ] is None by {
                    if i < k {
                        if pm_pre.addr_map().contains_key(ge.addr) {
                            if pm_pre.global_ndx(ge.addr) == pm0.global_ndx(s_all[i].addr) {
                                assert(pm_pre.slots()[pm_pre.global_ndx(ge.addr)] == Some(ge.addr));
                            }
                        }
                    } else {
                        if pm_pre.addr_map().contains_key(ge.addr) {
                            assert(!evicted_addr(s_all.take(k as int), ge.addr, now)) by {
                                if evicted_addr(s_all.take(k as int), ge.addr, now) {
                                    let w = choose|w: int|
                                        0 <= w < s_all.take(k as int).len() && (
                                        #[trigger] s_all.take(k as int)[w]).addr == ge.addr
                                            && spec_stale(s_all.take(k as int)[w], now);
                                    assert(s_all[w].addr == s_all[k as int].addr);
                                }
                            }
                            assert(pm_pre.addr_map()[ge.addr] == pm0.addr_map()[ge.addr]);
                        }
                    }
                }
            }
        } else {
            kept.push(e);
            proof {
                assert forall|a: u32| !evicted_addr(s_all.take(k as int + 1), a, now) implies (
                pipe_mgmt.addr_map().contains_key(a) <==> pm0.addr_map().contains_key(a)) && (
                pm0.addr_map().contains_key(a) ==> pipe_mgmt.addr_map()[a] == pm0.addr_map()[a]) by {
                    lemma_evicted_prefix(s_all, k as int, a, now);
                    assert(!evicted_addr(s_all.take(k as int), a, now));
                    assert(pipe_mgmt.addr_map().contains_key(a) <==> pm0.addr_map().contains_key(
                        a,
                    ));
                    assert(pm0.addr_map().contains_key(a) ==> pipe_mgmt.addr_map()[a]
                        == pm0.addr_map()[a]);
                }
            }
        }
    }
    proof {
        assert(s_all.take(n as int) =~= s_all);
        lemma_kept_props(s_all, now);
        let kk = spec_kept(s_all, now);
        assert forall|i: int, j: int| 0 <= i < j < kept@.len() implies (
        #[trigger] kept@[i]).addr != (#[trigger] kept@[j]).addr by {
            assert(kept@[i] == kk[i] && kept@[j] == kk[j]);
        }
        assert forall|i: int| 0 <= i < kept@.len() implies (#[trigger] kept@[i]).wf(tw, aw)
            && cpr_fields_ok(kept@[i]) by {
            let w = choose|w: int| 0 <= w < s_all.len() && kk[i] == s_all[w];
            assert(s_all[w].wf(tw, aw) && cpr_fields_ok(s_all[w]));
        }
    }
    entities.replace_all(kept);
    cmds
}


proof fn lemma_kept_props(s: Seq<Entity>, now: u64)
    requires
        forall|i: int, j: int| 0 <= i < j < s.len() ==> (#[trigger] s[i]).addr != (#[trigger] s[j]).addr,
    ensures
        spec_kept(s, now).len() <= s.len(),
        forall|p: int|
            0 <= p < spec_kept(s, now).len() ==> exists|i: int|
                0 <= i < s.len() && #[trigger] spec_kept(s, now)[p] == s[i],
        forall|p1: int, p2: int|
            0 <= p1 < p2 < spec_kept(s, now).len() ==> (#[trigger] spec_kept(s, now)[p1]).addr != (
            #[trigger] spec_kept(s, now)[p2]).addr,
    decreases s.len(),
{
    if s.len() > 0 {
        let rest = s.drop_last();
        lemma_kept_props(rest, now);
        let kr = spec_kept(rest, now);
        assert(forall|p: int|
            0 <= p < kr.len() ==> exists|i: int| 0 <= i < s.len() && #[trigger] kr[p] == s[i]) by {
            assert forall|p: int| 0 <= p < kr.len() implies exists|i: int|
                0 <= i < s.len() && #[trigger] kr[p] == s[i] by {
                let i = choose|i: int| 0 <= i < rest.len() && kr[p] == rest[i];
                assert(rest[i] == s[i]);
            }
        }
        if !spec_stale(s.last(), now) {
            let kk = kr.push(s.last());
            assert(spec_kept(s, now) == kk);
            assert forall|p1: int, p2: int| 0 <= p1 < p2 < kk.len() implies (
            #[trigger] kk[p1]).addr != (#[trigger] kk[p2]).addr by {
                if p2 == kk.len() - 1 {
                    assert(kk[p2] == s.last());
                    let i = choose|i: int| 0 <= i < rest.len() && kk[p1] == rest[i];
                    assert(s[i].addr != s[s.len() - 1].addr);
                } else {
                    assert(kk[p1] == kr[p1] && kk[p2] == kr[p2]);
                }
            }
            assert forall|p: int| 0 <= p < kk.len() implies exists|i: int|
                0 <= i < s.len() && #[trigger] kk[p] == s[i] by {
                if p == kk.len() - 1 {
                    assert(kk[p] == s[s.len() - 1]);
                } else {
                    assert(kk[p] == kr[p]);
                }
            }
        }
    }
}

} // verus!
