//! The simulation control plane: a FIFO of requests from any number of
//! producers, executed one at a time, with every response logged in order
//! and handed to each registered listener exactly once.

use crate::bits::{bits_of, extended, get_resized_bitvec, Bits, MAX_BITS};
use crate::design::{build_tree, find_signal, first_named, groupable, is_readable, is_tree_of, readable, total_len, LoadedDut, Signal};
use crate::paths::{same_text, PathSet};
use crate::wave::{samples_of, Wave};
use std::collections::VecDeque;
use vstd::prelude::*;

verus! {

/// An operation asked of the simulator.
pub enum Request {
    Load(String),
    Run(u64),
    SetSignal(String, Bits),
    ModifyProbedPoints(PathSet, PathSet),
    Terminate,
}

/// The outcome of an operation, success or an error message.
pub enum Response {
    LoadResult(Result<LoadedDut, String>),
    RunResult(Result<u64, String>),
    SetSignalResult(Result<(), String>),
    ModifyProbedPointsResult(Result<(), String>),
}

/// No two waves record the same signal.
pub open spec fn waves_distinct(ws: Seq<Wave>) -> bool {
    forall|a: int, b: int| 0 <= a < b < ws.len() ==> #[trigger] ws[a].signal_name@ != #[trigger] ws[b].signal_name@
}

/// The bits of every sample recorded for the signal at `p`, oldest first
/// (none if no wave records it).
pub open spec fn wave_of(ws: Seq<Wave>, p: Seq<char>) -> Seq<Seq<bool>> {
    if exists|w: int| 0 <= w < ws.len() && #[trigger] ws[w].signal_name@ == p {
        samples_of(ws[choose|w: int| 0 <= w < ws.len() && #[trigger] ws[w].signal_name@ == p].values@)
    } else {
        Seq::empty()
    }
}

proof fn lemma_wave_of_at(ws: Seq<Wave>, w: int)
    requires
        waves_distinct(ws),
        0 <= w < ws.len(),
    ensures
        wave_of(ws, ws[w].signal_name@) == samples_of(ws[w].values@),
{
    let p = ws[w].signal_name@;
    let c = choose|c: int| 0 <= c < ws.len() && #[trigger] ws[c].signal_name@ == p;
    if c != w {
        if c < w {
            assert(ws[c].signal_name@ != ws[w].signal_name@);
        } else {
            assert(ws[w].signal_name@ != ws[c].signal_name@);
        }
    }
}

/// The probe set that survives loading a design with `signals`: the paths
/// probed before that still name a readable signal.
pub open spec fn reconciled(before: Option<LoadedDut>, signals: Seq<Signal>) -> Set<Seq<char>> {
    match before {
        Some(d) => d.probed_points@.filter(|p: Seq<char>| readable(signals, p)),
        None => Set::empty(),
    }
}

/// Signal `j` of session `d` is the one that `name` designates: the first
/// with that full path, or else the first whose path is the top instance's
/// path, a dot and `name`.
pub open spec fn target(d: LoadedDut, name: Seq<char>, j: int) -> bool {
    ||| first_named(d.signals@, name, j)
    ||| {
        &&& forall|k: int| 0 <= k < d.signals@.len() ==> #[trigger] d.signals@[k].name@ != name
        &&& first_named(d.signals@, d.nodes@[0].path@ + "."@ + name, j)
    }
}

/// `m` is `prefix` followed by `name`.
pub open spec fn names(m: Seq<char>, prefix: Seq<char>, name: Seq<char>) -> bool {
    m == prefix + name
}

/// `prefix` followed by `name`.
fn message(prefix: &str, name: &str) -> (r: String)
    ensures
        r@ == prefix@ + name@,
{
    let mut m = prefix.to_owned();
    m.append(name);
    m
}

/// The ids of `s` increase strictly.
pub open spec fn increasing<T>(s: Seq<(u64, T)>) -> bool {
    forall|a: int, b: int| 0 <= a < b < s.len() ==> #[trigger] s[a].0 < #[trigger] s[b].0
}

/// The control plane's state: queued requests with their ids, the request
/// being executed, the log of responses with the ids of their requests, and
/// for each listener where its stream starts and how much of it it has
/// received; then the session itself.
pub struct Simulator {
    pub queue: VecDeque<(u64, Request)>,
    pub next_id: u64,
    pub in_flight: Option<u64>,
    pub log: Vec<(u64, Response)>,
    pub registered_at: Vec<usize>,
    pub delivered: Vec<usize>,
    pub terminated: bool,
    pub loaded: Option<LoadedDut>,
    pub waves: Vec<Wave>,
    pub time: u64,
}

impl Simulator {
    /// Ids grow along the log, then the request in flight, then the queue,
    /// and stay below `next_id`; each listener's cursor lies within its stream.
    pub open spec fn wf(&self) -> bool {
        &&& increasing(self.log@)
        &&& increasing(self.queue@)
        &&& forall|a: int| 0 <= a < self.log@.len() ==> #[trigger] self.log@[a].0 < self.next_id
        &&& forall|b: int| 0 <= b < self.queue@.len() ==> #[trigger] self.queue@[b].0 < self.next_id
        &&& forall|a: int, b: int|
            0 <= a < self.log@.len() && 0 <= b < self.queue@.len() ==> #[trigger] self.log@[a].0
                < #[trigger] self.queue@[b].0
        &&& self.in_flight matches Some(id) ==> {
            &&& id < self.next_id
            &&& forall|a: int| 0 <= a < self.log@.len() ==> #[trigger] self.log@[a].0 < id
            &&& forall|b: int| 0 <= b < self.queue@.len() ==> id < #[trigger] self.queue@[b].0
        }
        &&& self.registered_at@.len() == self.delivered@.len()
        &&& forall|i: int|
            0 <= i < self.delivered@.len() ==> #[trigger] self.registered_at@[i] <= self.delivered@[i]
                <= self.log@.len()
        &&& self.loaded matches Some(d) ==> d.wf()
        &&& waves_distinct(self.waves@)
    }

    /// The responses that listener `i` is owed from its registration on, in order.
    pub open spec fn stream(&self, i: int) -> Seq<(u64, Response)> {
        self.log@.subrange(self.registered_at@[i] as int, self.log@.len() as int)
    }

    /// The idle state: nothing queued, logged or loaded, time zero.
    pub fn new() -> (r: Simulator)
        ensures
            r.wf(),
            r.queue@.len() == 0,
            r.log@.len() == 0,
            r.delivered@.len() == 0,
            r.in_flight is None,
            !r.terminated,
            r.loaded is None,
            r.waves@.len() == 0,
            r.time == 0,
    {
        Simulator {
            queue: VecDeque::new(),
            next_id: 0,
            in_flight: None,
            log: Vec::new(),
            registered_at: Vec::new(),
            delivered: Vec::new(),
            terminated: false,
            loaded: None,
            waves: Vec::new(),
            time: 0,
        }
    }

    /// Registers a listener, which is owed every response logged from now on;
    /// returns its number.
    pub fn register_listener(&mut self) -> (r: usize)
        requires
            old(self).wf(),
            old(self).delivered@.len() < usize::MAX,
        ensures
            final(self).wf(),
            r == old(self).delivered@.len(),
            final(self).delivered@ == old(self).delivered@.push(old(self).log@.len() as usize),
            final(self).registered_at@ == old(self).registered_at@.push(old(self).log@.len() as usize),
            final(self).log == old(self).log,
            final(self).queue == old(self).queue,
            final(self).in_flight == old(self).in_flight,
            final(self).next_id == old(self).next_id,
            final(self).terminated == old(self).terminated,
    {
        let n = self.log.len();
        self.registered_at.push(n);
        self.delivered.push(n);
        self.delivered.len() - 1
    }

    /// Queues `request` behind every earlier one and returns its id; once
    /// the simulator has terminated (or ids are spent) nothing is accepted.
    pub fn submit(&mut self, request: Request) -> (r: Option<u64>)
        requires
            old(self).wf(),
        ensures
            final(self).wf(),
            r is Some <==> !old(self).terminated && old(self).next_id < u64::MAX,
            r matches Some(id) ==> {
                &&& id == old(self).next_id
                &&& final(self).queue@ == old(self).queue@.push((id, request))
                &&& final(self).next_id == old(self).next_id + 1
            },
            r is None ==> final(self).queue@ == old(self).queue@ && final(self).next_id == old(self).next_id,
            final(self).log == old(self).log,
            final(self).delivered == old(self).delivered,
            final(self).registered_at == old(self).registered_at,
            final(self).in_flight == old(self).in_flight,
            final(self).terminated == old(self).terminated,
    {
        if self.terminated || self.next_id == u64::MAX {
            return None;
        }
        let id = self.next_id;
        self.queue.push_back((id, request));
        self.next_id = id + 1;
        Some(id)
    }

    /// Takes the oldest queued request for execution, once the previous one
    /// has been answered. `Terminate` ends the simulator: it accepts nothing
    /// more and drops what is still queued.
    pub fn next_request(&mut self) -> (r: Option<Request>)
        requires
            old(self).wf(),
        ensures
            final(self).wf(),
            r is Some <==> old(self).in_flight is None && old(self).queue@.len() > 0 && !old(self).terminated,
            r matches Some(req) ==> {
                &&& req == old(self).queue@[0].1
                &&& if req is Terminate {
                    &&& final(self).terminated
                    &&& final(self).queue@.len() == 0
                    &&& final(self).in_flight is None
                } else {
                    &&& final(self).queue@ == old(self).queue@.drop_first()
                    &&& final(self).in_flight == Some(old(self).queue@[0].0)
                    &&& final(self).terminated == old(self).terminated
                }
            },
            r is None ==> final(self).queue@ == old(self).queue@ && final(self).in_flight == old(self).in_flight
                && final(self).terminated == old(self).terminated,
            final(self).log == old(self).log,
            final(self).delivered == old(self).delivered,
            final(self).registered_at == old(self).registered_at,
            final(self).next_id == old(self).next_id,
    {
        if self.in_flight.is_some() || self.terminated {
            return None;
        }
        match self.queue.pop_front() {
            None => None,
            Some((id, req)) => {
                if let Request::Terminate = req {
                    self.terminated = true;
                    self.queue = VecDeque::new();
                } else {
                    self.in_flight = Some(id);
                }
                Some(req)
            },
        }
    }

    /// Logs `response` as the answer to the request in flight, after every
    /// earlier response.
    pub fn respond(&mut self, response: Response)
        requires
            old(self).wf(),
            old(self).in_flight is Some,
            old(self).log@.len() < usize::MAX,
        ensures
            final(self).wf(),
            final(self).log@ == old(self).log@.push((old(self).in_flight->0, response)),
            final(self).in_flight is None,
            final(self).queue == old(self).queue,
            final(self).delivered == old(self).delivered,
            final(self).registered_at == old(self).registered_at,
            final(self).next_id == old(self).next_id,
            final(self).terminated == old(self).terminated,
    {
        let id = match self.in_flight {
            Some(id) => id,
            None => 0,
        };
        self.log.push((id, response));
        self.in_flight = None;
    }

    /// The next response owed to listener `i`, which then counts as received.
    pub fn next_delivery(&mut self, i: usize) -> (r: Option<&Response>)
        requires
            old(self).wf(),
            i < old(self).delivered@.len(),
        ensures
            final(self).wf(),
            r is Some <==> old(self).delivered@[i as int] < old(self).log@.len(),
            r matches Some(resp) ==> {
                &&& resp == &old(self).log@[old(self).delivered@[i as int] as int].1
                &&& final(self).delivered@ == old(self).delivered@.update(i as int, (old(self).delivered@[i as int] + 1) as usize)
            },
            r is None ==> final(self).delivered == old(self).delivered,
            final(self).log == old(self).log,
            final(self).queue == old(self).queue,
            final(self).registered_at == old(self).registered_at,
            final(self).in_flight == old(self).in_flight,
            final(self).next_id == old(self).next_id,
            final(self).terminated == old(self).terminated,
    {
        let k = self.delivered[i];
        if k < self.log.len() {
            self.delivered.set(i, k + 1);
            Some(&self.log[k].1)
        } else {
            None
        }
    }
}

impl Simulator {
    /// The session is unchanged.
    pub open spec fn same_session(&self, o: &Simulator) -> bool {
        &&& self.loaded == o.loaded
        &&& self.waves == o.waves
        &&& self.time == o.time
    }

    /// The request queue, log and listeners are unchanged.
    pub open spec fn same_protocol(&self, o: &Simulator) -> bool {
        &&& self.queue == o.queue
        &&& self.next_id == o.next_id
        &&& self.in_flight == o.in_flight
        &&& self.log == o.log
        &&& self.registered_at == o.registered_at
        &&& self.delivered == o.delivered
        &&& self.terminated == o.terminated
    }

    /// Finishes a `Load` whose design reported `outcome` (its signals, or
    /// why it could not be loaded). The signals must group into one instance
    /// tree; then the session becomes that design, keeping the probed paths
    /// that still name readable signals, at time zero with no waves.
    /// Otherwise the session stays as it was.
    pub fn complete_load(&mut self, outcome: Result<Vec<Signal>, String>) -> (r: Response)
        requires
            old(self).wf(),
            outcome matches Ok(sigs) ==> total_len(sigs@, sigs@.len() as int) < usize::MAX,
        ensures
            final(self).wf(),
            final(self).same_protocol(old(self)),
            match outcome {
                Ok(sigs) => if groupable(sigs@) {
                    &&& final(self).loaded matches Some(d)
                    &&& d.signals@ == sigs@
                    &&& is_tree_of(d.nodes@, sigs@)
                    &&& d.probed_points@ == reconciled(old(self).loaded, sigs@)
                    &&& final(self).time == 0
                    &&& final(self).waves@.len() == 0
                    &&& r matches Response::LoadResult(Ok(x))
                    &&& x.wf()
                    &&& x.same_as(d)
                } else {
                    &&& final(self).same_session(old(self))
                    &&& r matches Response::LoadResult(Err(_))
                },
                Err(e) => {
                    &&& final(self).same_session(old(self))
                    &&& r matches Response::LoadResult(Err(m))
                    &&& m@ == e@
                },
            },
    {
        match outcome {
            Err(e) => Response::LoadResult(Err(e)),
            Ok(sigs) => {
                match build_tree(&sigs) {
                    None => Response::LoadResult(Err("incompatible design: signal paths do not form one instance tree".to_owned())),
                    Some(nodes) => {
                        let mut probed = PathSet::new();
                        if let Some(d) = &self.loaded {
                            let mut k: usize = 0;
                            proof {
                                d.probed_points.lemma_view_seq();
                            }
                            while k < d.probed_points.len()
                                invariant
                                    d.probed_points.wf(),
                                    k <= d.probed_points.seq().len(),
                                    probed.wf(),
                                    forall|p: Seq<char>| #[trigger] d.probed_points@.contains(p) <==> crate::paths::holds(
                                        d.probed_points.seq(),
                                        d.probed_points.seq().len() as int,
                                        p,
                                    ),
                                    probed@ == Set::new(|p: Seq<char>| crate::paths::holds(d.probed_points.seq(), k as int, p) && readable(sigs@, p)),
                                decreases d.probed_points.seq().len() - k,
                            {
                                let p = d.probed_points.get(k);
                                proof {
                                    crate::paths::lemma_holds_step(d.probed_points.seq(), k as int);
                                }
                                if is_readable(&sigs, p.as_str()) {
                                    probed.insert(p.as_str());
                                }
                                proof {
                                    assert(probed@ =~= Set::new(|q: Seq<char>| crate::paths::holds(d.probed_points.seq(), k + 1, q) && readable(sigs@, q)));
                                }
                                k = k + 1;
                            }
                            proof {
                                assert(probed@ =~= reconciled(old(self).loaded, sigs@));
                            }
                        } else {
                            proof {
                                assert(probed@ =~= reconciled(old(self).loaded, sigs@));
                            }
                        }
                        let d = LoadedDut { signals: sigs, nodes, probed_points: probed };
                        proof {
                            assert forall|p: Seq<char>| #[trigger] d.probed_points@.contains(p) implies readable(d.signals@, p) by {}
                        }
                        let x = d.copy();
                        self.loaded = Some(d);
                        self.waves = Vec::new();
                        self.time = 0;
                        Response::LoadResult(Ok(x))
                    },
                }
            },
        }
    }
}

/// Appends `value` to the wave of the signal at `p`, starting that wave if
/// there is none.
fn record_sample(waves: &mut Vec<Wave>, p: &String, width: usize, value: Bits)
    requires
        waves_distinct(old(waves)@),
    ensures
        waves_distinct(final(waves)@),
        wave_of(final(waves)@, p@) == wave_of(old(waves)@, p@).push(bits_of(value)),
        forall|q: Seq<char>| q != p@ ==> #[trigger] wave_of(final(waves)@, q) == wave_of(old(waves)@, q),
{
    let ghost ws = waves@;
    let mut w: usize = 0;
    while w < waves.len()
        invariant
            waves@ == ws,
            ws == old(waves)@,
            waves_distinct(ws),
            w <= ws.len(),
            forall|k: int| 0 <= k < w ==> #[trigger] ws[k].signal_name@ != p@,
        decreases ws.len() - w,
    {
        if same_text(waves[w].signal_name.as_str(), p.as_str()) {
            waves[w].values.push(value);
            proof {
                let nw = waves@;
                assert(ws[w as int].signal_name@ == p@);
                assert(nw[w as int].signal_name == ws[w as int].signal_name);
                lemma_wave_of_at(ws, w as int);
                assert forall|a: int, b: int| 0 <= a < b < nw.len() implies #[trigger] nw[a].signal_name@
                    != #[trigger] nw[b].signal_name@ by {
                    assert(nw[a].signal_name == ws[a].signal_name);
                    assert(nw[b].signal_name == ws[b].signal_name);
                }
                lemma_wave_of_at(nw, w as int);
                assert(samples_of(nw[w as int].values@) =~= samples_of(ws[w as int].values@).push(bits_of(value)));
                assert forall|q: Seq<char>| q != p@ implies #[trigger] wave_of(nw, q) == wave_of(ws, q) by {
                    if exists|c: int| 0 <= c < ws.len() && #[trigger] ws[c].signal_name@ == q {
                        let c = choose|c: int| 0 <= c < ws.len() && #[trigger] ws[c].signal_name@ == q;
                        lemma_wave_of_at(ws, c);
                        lemma_wave_of_at(nw, c);
                        assert(nw[c] == ws[c]);
                    } else {
                        assert forall|c: int| 0 <= c < nw.len() implies #[trigger] nw[c].signal_name@ != q by {
                            assert(nw[c].signal_name == ws[c].signal_name);
                        }
                    }
                }
            }
            return;
        }
        w = w + 1;
    }
    let mut wave = Wave::new(p.clone(), width);
    wave.push_sample(value);
    waves.push(wave);
    proof {
        let nw = waves@;
        let n = ws.len() as int;
        assert forall|a: int, b: int| 0 <= a < b < nw.len() implies #[trigger] nw[a].signal_name@
            != #[trigger] nw[b].signal_name@ by {
            assert(nw[a] == ws[a]);
            if b < n {
                assert(nw[b] == ws[b]);
            }
        }
        lemma_wave_of_at(nw, n);
        assert(samples_of(nw[n].values@) =~= Seq::<Seq<bool>>::empty().push(bits_of(value)));
        assert(!(exists|c: int| 0 <= c < ws.len() && #[trigger] ws[c].signal_name@ == p@));
        assert forall|q: Seq<char>| q != p@ implies #[trigger] wave_of(nw, q) == wave_of(ws, q) by {
            if exists|c: int| 0 <= c < ws.len() && #[trigger] ws[c].signal_name@ == q {
                let c = choose|c: int| 0 <= c < ws.len() && #[trigger] ws[c].signal_name@ == q;
                lemma_wave_of_at(ws, c);
                lemma_wave_of_at(nw, c);
                assert(nw[c] == ws[c]);
            } else {
                assert forall|c: int| 0 <= c < nw.len() implies #[trigger] nw[c].signal_name@ != q by {
                    if c < n {
                        assert(nw[c] == ws[c]);
                    }
                }
            }
        }
    }
}

impl Simulator {
    /// Whether a `Run` may go to the design: only once one is loaded.
    pub fn check_run(&self) -> (r: Result<(), String>)
        ensures
            r is Ok <==> self.loaded is Some,
    {
        if self.loaded.is_some() {
            Ok(())
        } else {
            Err("no design loaded".to_owned())
        }
    }

    /// The probed paths, in the order their samples are expected.
    pub fn probed_paths(&self) -> (r: Vec<String>)
        requires
            self.wf(),
        ensures
            match self.loaded {
                Some(d) => r@.len() == d.probed_points.seq().len() && forall|k: int|
                    0 <= k < r@.len() ==> #[trigger] r@[k]@ == d.probed_points.seq()[k]@,
                None => r@.len() == 0,
            },
    {
        let mut r: Vec<String> = Vec::new();
        if let Some(d) = &self.loaded {
            let mut k: usize = 0;
            while k < d.probed_points.len()
                invariant
                    d.probed_points.wf(),
                    k <= d.probed_points.seq().len(),
                    r@.len() == k,
                    forall|q: int| 0 <= q < k ==> #[trigger] r@[q]@ == d.probed_points.seq()[q]@,
                decreases d.probed_points.seq().len() - k,
            {
                r.push(d.probed_points.get(k).clone());
                k = k + 1;
            }
        }
        r
    }

    /// Finishes a `Run` whose design reported `outcome` (the new time, or
    /// an error), with `samples` read from the probed signals in the order of
    /// `probed_paths`. On success each probed signal's wave gains its sample
    /// and the time moves on; on any failure nothing changes.
    pub fn complete_run(&mut self, outcome: Result<u64, String>, samples: Vec<Bits>) -> (r: Response)
        requires
            old(self).wf(),
        ensures
            final(self).wf(),
            final(self).same_protocol(old(self)),
            old(self).loaded is None ==> final(self).same_session(old(self)) && (r matches Response::RunResult(Err(_))),
            old(self).loaded matches Some(d) ==> match outcome {
                Err(e) => {
                    &&& final(self).same_session(old(self))
                    &&& r matches Response::RunResult(Err(m))
                    &&& m@ == e@
                },
                Ok(t) => if samples@.len() == d.probed_points.seq().len() {
                    &&& final(self).time == t
                    &&& final(self).loaded == old(self).loaded
                    &&& r == Response::RunResult(Ok(t))
                    &&& forall|k: int|
                        0 <= k < samples@.len() ==> #[trigger] wave_of(final(self).waves@, d.probed_points.seq()[k]@)
                            == wave_of(old(self).waves@, d.probed_points.seq()[k]@).push(bits_of(samples@[k]))
                    &&& forall|p: Seq<char>|
                        !d.probed_points@.contains(p) ==> #[trigger] wave_of(final(self).waves@, p) == wave_of(
                            old(self).waves@,
                            p,
                        )
                } else {
                    final(self).same_session(old(self)) && (r matches Response::RunResult(Err(_)))
                },
            },
    {
        let t = match outcome {
            Err(e) => {
                return Response::RunResult(Err(e));
            },
            Ok(t) => t,
        };
        match &self.loaded {
            None => Response::RunResult(Err("no design loaded".to_owned())),
            Some(d) => {
                let n = d.probed_points.len();
                if samples.len() != n {
                    return Response::RunResult(Err("samples do not match the probed signals".to_owned()));
                }
                proof {
                    d.probed_points.lemma_seq_distinct();
                    d.probed_points.lemma_view_seq();
                }
                let ghost seq = d.probed_points.seq();
                let mut k: usize = 0;
                while k < n
                    invariant
                        d.probed_points.wf(),
                        self.loaded == old(self).loaded,
                        self.loaded == Some(*d),
                        self.same_protocol(old(self)),
                        self.time == old(self).time,
                        old(self).wf(),
                        seq == d.probed_points.seq(),
                        n == seq.len() == samples@.len(),
                        k <= n,
                        waves_distinct(self.waves@),
                        forall|a: int, b: int| 0 <= a < b < seq.len() ==> #[trigger] seq[a]@ != #[trigger] seq[b]@,
                        forall|q: int|
                            0 <= q < k ==> #[trigger] wave_of(self.waves@, seq[q]@) == wave_of(old(self).waves@, seq[q]@).push(
                                bits_of(samples@[q]),
                            ),
                        forall|p: Seq<char>|
                            !crate::paths::holds(seq, k as int, p) ==> #[trigger] wave_of(self.waves@, p) == wave_of(
                                old(self).waves@,
                                p,
                            ),
                    decreases n - k,
                {
                    let p = d.probed_points.get(k);
                    let width: usize = match find_signal(&d.signals, p.as_str()) {
                        Some(j) => #[verifier::truncate] (d.signals[j].width as usize),
                        None => 0,
                    };
                    let ghost before = self.waves@;
                    record_sample(&mut self.waves, p, width, samples[k].clone());
                    proof {
                        crate::paths::lemma_holds_step(seq, k as int);
                        assert forall|q: int| 0 <= q < k + 1 implies #[trigger] wave_of(self.waves@, seq[q]@) == wave_of(
                            old(self).waves@,
                            seq[q]@,
                        ).push(bits_of(samples@[q])) by {
                            if q < k {
                                assert(seq[q]@ != seq[k as int]@);
                            } else {
                                assert(!crate::paths::holds(seq, k as int, seq[k as int]@)) by {
                                    if crate::paths::holds(seq, k as int, seq[k as int]@) {
                                        let c = choose|c: int| 0 <= c < k && #[trigger] seq[c]@ == seq[k as int]@;
                                        assert(seq[c]@ != seq[k as int]@);
                                    }
                                }
                            }
                        }
                        assert forall|p2: Seq<char>| !crate::paths::holds(seq, k + 1, p2) implies #[trigger] wave_of(
                            self.waves@,
                            p2,
                        ) == wave_of(old(self).waves@, p2) by {
                            assert(p2 != seq[k as int]@);
                        }
                    }
                    k = k + 1;
                }
                self.time = t;
                Response::RunResult(Ok(t))
            },
        }
    }
}

impl Simulator {
    /// Checks a `SetSignal` of `value` onto the signal named `name` before it
    /// goes to the design. The name is a full path or, failing that, a path
    /// below the top instance; the first signal so named must be writable
    /// and at least as wide as `value`. On success returns `value`
    /// zero-extended to the signal's width; every error names the signal.
    pub fn prepare_set(&self, name: &str, value: &Bits) -> (r: Result<Bits, String>)
        requires
            self.wf(),
        ensures
            self.loaded is None ==> (r matches Err(m) && m@ == "no design loaded"@),
            self.loaded matches Some(d) ==> {
                &&& (forall|j: int| !#[trigger] target(d, name@, j)) ==> (r matches Err(m) && names(
                    m@,
                    "unknown signal "@,
                    name@,
                ))
                &&& forall|j: int|
                    #[trigger] target(d, name@, j) ==> {
                        let sig = d.signals@[j];
                        if !sig.set {
                            r matches Err(m) && names(m@, "read-only signal "@, name@)
                        } else if bits_of(*value).len() > sig.width || sig.width > MAX_BITS {
                            r matches Err(m) && names(m@, "width mismatch for signal "@, name@)
                        } else {
                            r matches Ok(b) && bits_of(b) == extended(bits_of(*value), sig.width as nat, false)
                        }
                    }
            },
    {
        match &self.loaded {
            None => Err("no design loaded".to_owned()),
            Some(d) => {
                let ghost rel = d.nodes@[0].path@ + "."@ + name@;
                proof {
                    reveal(crate::design::tree_wf);
                }
                let found = match find_signal(&d.signals, name) {
                    Some(j) => Some(j),
                    None => {
                        let mut full = d.nodes[0].path.clone();
                        full.append(".");
                        full.append(name);
                        proof {
                            assert(full@ == rel);
                        }
                        find_signal(&d.signals, full.as_str())
                    },
                };
                match found {
                    None => {
                        proof {
                            assert forall|j: int| !#[trigger] target(*d, name@, j) by {}
                        }
                        Err(message("unknown signal ", name))
                    },
                    Some(j) => {
                        proof {
                            assert(target(*d, name@, j as int));
                            assert forall|i: int| #[trigger] target(*d, name@, i) implies i == j by {
                                if first_named(d.signals@, name@, j as int) {
                                    if i < j {
                                        assert(d.signals@[i].name@ != name@);
                                    } else if j < i {
                                        assert(d.signals@[j as int].name@ != name@);
                                    }
                                } else {
                                    if first_named(d.signals@, name@, i) {
                                        assert(d.signals@[i].name@ != name@);
                                    } else if i < j {
                                        assert(d.signals@[i].name@ != rel);
                                    } else if j < i {
                                        assert(d.signals@[j as int].name@ != rel);
                                    }
                                }
                            }
                        }
                        let sig = &d.signals[j];
                        if !sig.set {
                            Err(message("read-only signal ", name))
                        } else if value.len() as u64 > sig.width || sig.width > MAX_BITS as u64 {
                            Err(message("width mismatch for signal ", name))
                        } else {
                            Ok(get_resized_bitvec(value, sig.width as usize, false))
                        }
                    },
                }
            },
        }
    }

    /// Finishes a `SetSignal` with what the design reported.
    pub fn complete_set(&self, outcome: Result<(), String>) -> (r: Response)
        ensures
            r == Response::SetSignalResult(outcome),
    {
        Response::SetSignalResult(outcome)
    }

    /// Executes a `ModifyProbedPoints`: every path of `add` must name a
    /// readable signal, or nothing changes and the error names the first
    /// one that does not; then the probe set gains `add` and loses `remove`.
    pub fn complete_modify(&mut self, add: &PathSet, remove: &PathSet) -> (r: Response)
        requires
            old(self).wf(),
            add.wf(),
        ensures
            final(self).wf(),
            final(self).same_protocol(old(self)),
            old(self).loaded is None ==> final(self).same_session(old(self)) && (r matches Response::ModifyProbedPointsResult(Err(_))),
            old(self).loaded matches Some(d) ==> if (forall|p: Seq<char>| #[trigger] add@.contains(p) ==> readable(d.signals@, p)) {
                &&& final(self).loaded matches Some(e)
                &&& e.signals == d.signals
                &&& e.nodes == d.nodes
                &&& e.probed_points@ == d.probed_points@.union(add@).difference(remove@)
                &&& final(self).waves == old(self).waves
                &&& final(self).time == old(self).time
                &&& r == Response::ModifyProbedPointsResult(Ok(()))
            } else {
                &&& final(self).same_session(old(self))
                &&& r matches Response::ModifyProbedPointsResult(Err(_))
            },
    {
        if self.loaded.is_none() {
            return Response::ModifyProbedPointsResult(Err("no design loaded".to_owned()));
        }
        let mut loaded = self.loaded.take().unwrap();
        let mut k: usize = 0;
        proof {
            add.lemma_view_seq();
        }
        while k < add.len()
            invariant
                add.wf(),
                k <= add.seq().len(),
                old(self).loaded == Some(loaded),
                old(self).wf(),
                self.same_protocol(old(self)),
                self.waves == old(self).waves,
                self.time == old(self).time,
                forall|p: Seq<char>| #[trigger] add@.contains(p) <==> crate::paths::holds(add.seq(), add.seq().len() as int, p),
                forall|q: int| 0 <= q < k ==> readable(loaded.signals@, #[trigger] add.seq()[q]@),
            decreases add.seq().len() - k,
        {
            let p = add.get(k);
            if !is_readable(&loaded.signals, p.as_str()) {
                self.loaded = Some(loaded);
                return Response::ModifyProbedPointsResult(Err(message("not a readable signal: ", p.as_str())));
            }
            k = k + 1;
        }
        proof {
            assert forall|p: Seq<char>| #[trigger] add@.contains(p) implies readable(loaded.signals@, p) by {
                let q = choose|q: int| 0 <= q < add.seq().len() && #[trigger] add.seq()[q]@ == p;
            }
        }
        let ghost before = loaded;
        loaded.probed_points.union_with(add);
        loaded.probed_points.subtract(remove);
        proof {
            assert forall|p: Seq<char>| #[trigger] loaded.probed_points@.contains(p) implies readable(loaded.signals@, p) by {
                if before.probed_points@.contains(p) {
                    assert(readable(before.signals@, p));
                }
            }
        }
        self.loaded = Some(loaded);
        Response::ModifyProbedPointsResult(Ok(()))
    }
}

/// Reloading drops stale probes: a path that was probed but names no
/// readable signal of the new design is not in the new probe set, and a view
/// built from the new session flags no signal at that path as probed.
pub proof fn lemma_reload_drops_stale(
    before: Option<LoadedDut>,
    d: LoadedDut,
    v: crate::hier::InstanceHierViewer,
    p: Seq<char>,
)
    requires
        d.probed_points@ == reconciled(before, d.signals@),
        !readable(d.signals@, p),
        v.leafs@.len() == d.signals@.len(),
        forall|j: int|
            0 <= j < d.signals@.len() ==> {
                let l = #[trigger] v.leafs@[j];
                &&& l.path@ == d.signals@[j].name@
                &&& l.is_added == d.probed_points@.contains(d.signals@[j].name@)
            },
    ensures
        !d.probed_points@.contains(p),
        forall|j: int| 0 <= j < v.leafs@.len() && #[trigger] v.leafs@[j].path@ == p ==> !v.leafs@[j].is_added,
{
    assert forall|j: int| 0 <= j < v.leafs@.len() && #[trigger] v.leafs@[j].path@ == p implies !v.leafs@[j].is_added by {
        assert(d.signals@[j].name@ == p);
    }
}

/// Responses come out in the order their requests went in: when request A
/// was submitted before request B (a smaller id), A's response stands before
/// B's in the log, and so in the stream of every listener registered before
/// A was answered.
pub proof fn lemma_fifo_order(s: Simulator, a: int, b: int)
    requires
        s.wf(),
        0 <= a < s.log@.len(),
        0 <= b < s.log@.len(),
        s.log@[a].0 < s.log@[b].0,
    ensures
        a < b,
        forall|i: int|
            0 <= i < s.delivered@.len() && s.registered_at@[i] <= a ==> {
                &&& a - s.registered_at@[i] < b - s.registered_at@[i]
                &&& #[trigger] s.stream(i)[a - s.registered_at@[i]] == s.log@[a]
                &&& s.stream(i)[b - s.registered_at@[i]] == s.log@[b]
            },
{
    if b <= a {
        if b < a {
            assert(s.log@[b].0 < s.log@[a].0);
        }
    }
}

/// Each response reaches every listener registered before it was logged,
/// the same response, once: in that listener's stream exactly one entry
/// answers the request, and it is the logged response itself.
pub proof fn lemma_fan_out(s: Simulator, p: int)
    requires
        s.wf(),
        0 <= p < s.log@.len(),
    ensures
        forall|i: int, k: int|
            0 <= i < s.delivered@.len() && s.registered_at@[i] <= p && 0 <= k < s.stream(i).len() ==> (
            #[trigger] s.stream(i)[k].0 == s.log@[p].0 <==> k == p - s.registered_at@[i]),
        forall|i: int|
            0 <= i < s.delivered@.len() && s.registered_at@[i] <= p ==> #[trigger] s.stream(i)[p
                - s.registered_at@[i]] == s.log@[p],
{
    assert forall|i: int, k: int|
        0 <= i < s.delivered@.len() && s.registered_at@[i] <= p && 0 <= k < s.stream(i).len() implies (
        #[trigger] s.stream(i)[k].0 == s.log@[p].0 <==> k == p - s.registered_at@[i]) by {
        let q = k + s.registered_at@[i];
        assert(s.stream(i)[k] == s.log@[q]);
        if q < p {
            assert(s.log@[q].0 < s.log@[p].0);
        } else if p < q {
            assert(s.log@[p].0 < s.log@[q].0);
        }
    }
}

} // verus!
