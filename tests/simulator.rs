use oombak::bits::{from, Bits, Format, Option as DisplayOption};
use oombak::design::Signal;
use oombak::dut::{Dut, DutError};
use oombak::hier::InstanceHierViewer;
use oombak::interpreter::{interpret, Command};
use oombak::paths::PathSet;
use oombak::sim::{Request, Response, Simulator};

fn sig(name: &str, get: bool, set: bool) -> Signal {
    Signal { name: name.to_string(), width: 8, get, set }
}

fn design_signals() -> Vec<Signal> {
    vec![sig("top.in", true, true), sig("top.out", true, false), sig("top.adder_inst.d", true, false)]
}

fn render(b: &Bits, width: usize) -> String {
    from(b, &DisplayOption { format: Format::Binary, width, twos_complement: false })
}

fn bits(msb_first: &str) -> Bits {
    Bits::from_bools(&msb_first.chars().rev().map(|c| c == '1').collect())
}

fn loaded_sim() -> Simulator {
    let mut s = Simulator::new();
    s.submit(Request::Load("design.so".to_string())).unwrap();
    assert!(matches!(s.next_request(), Some(Request::Load(_))));
    let r = s.complete_load(Ok(design_signals()));
    assert!(matches!(r, Response::LoadResult(Ok(_))));
    s.respond(r);
    s
}

fn probe(s: &mut Simulator, paths: &[&str]) {
    let mut add = PathSet::new();
    for p in paths {
        add.insert(p);
    }
    let r = s.complete_modify(&add, &PathSet::new());
    assert!(matches!(r, Response::ModifyProbedPointsResult(Ok(()))));
}

#[test]
fn responses_reach_listeners_in_submission_order() {
    let mut s = Simulator::new();
    let l0 = s.register_listener();
    let l1 = s.register_listener();
    let a = s.submit(Request::Run(1)).unwrap();
    let b = s.submit(Request::Run(2)).unwrap();
    assert!(a < b);
    while let Some(req) = s.next_request() {
        let r = match req {
            Request::Run(d) => s.complete_run(Ok(d), vec![]),
            _ => unreachable!(),
        };
        s.respond(r);
    }
    assert_eq!(s.log.iter().map(|e| e.0).collect::<Vec<_>>(), vec![a, b]);
    for l in [l0, l1] {
        assert!(matches!(s.next_delivery(l), Some(Response::RunResult(Err(_)))));
        assert!(matches!(s.next_delivery(l), Some(Response::RunResult(Err(_)))));
        assert!(s.next_delivery(l).is_none());
    }
}

#[test]
fn order_holds_with_a_design_loaded() {
    let mut s = loaded_sim();
    let l = s.register_listener();
    s.submit(Request::Run(3)).unwrap();
    s.submit(Request::Run(4)).unwrap();
    let mut t = 0;
    while let Some(Request::Run(d)) = s.next_request() {
        t += d;
        let r = s.complete_run(Ok(t), vec![]);
        s.respond(r);
    }
    assert!(matches!(s.next_delivery(l), Some(Response::RunResult(Ok(3)))));
    assert!(matches!(s.next_delivery(l), Some(Response::RunResult(Ok(7)))));
    assert_eq!(s.time, 7);
}

#[test]
fn every_listener_gets_each_response_once() {
    let mut s = Simulator::new();
    let ls: Vec<usize> = (0..3).map(|_| s.register_listener()).collect();
    s.submit(Request::Run(5)).unwrap();
    s.next_request().unwrap();
    let r = s.complete_run(Ok(5), vec![]);
    s.respond(r);
    for &l in &ls {
        match s.next_delivery(l) {
            Some(Response::RunResult(Err(m))) => assert_eq!(m, "no design loaded"),
            _ => panic!("expected the run result"),
        }
        assert!(s.next_delivery(l).is_none());
    }
}

#[test]
fn late_listener_misses_earlier_responses() {
    let mut s = loaded_sim();
    let l = s.register_listener();
    assert!(s.next_delivery(l).is_none());
}

#[test]
fn one_request_in_flight_at_a_time() {
    let mut s = Simulator::new();
    s.submit(Request::Run(1)).unwrap();
    s.submit(Request::Run(2)).unwrap();
    assert!(s.next_request().is_some());
    assert!(s.next_request().is_none());
    let r = s.complete_run(Ok(1), vec![]);
    s.respond(r);
    assert!(matches!(s.next_request(), Some(Request::Run(2))));
}

#[test]
fn terminate_stops_accepting_requests() {
    let mut s = Simulator::new();
    s.submit(Request::Terminate).unwrap();
    s.submit(Request::Run(1)).unwrap();
    assert!(matches!(s.next_request(), Some(Request::Terminate)));
    assert!(s.terminated);
    assert!(s.next_request().is_none());
    assert!(s.submit(Request::Run(2)).is_none());
}

#[test]
fn load_builds_the_hierarchy() {
    let mut s = Simulator::new();
    let r = s.complete_load(Ok(design_signals()));
    match r {
        Response::LoadResult(Ok(d)) => {
            assert_eq!(d.nodes[0].name, "top");
            assert_eq!(d.nodes[0].children, vec![1]);
            assert_eq!(d.nodes[1].name, "adder_inst");
            let mut v = InstanceHierViewer::new();
            v.set_loaded_dut(&d);
            assert_eq!(v.nodes[1].path, "top.adder_inst");
        }
        _ => panic!("expected a loaded design"),
    }
    assert_eq!(s.time, 0);
}

#[test]
fn failed_load_keeps_previous_session() {
    let mut s = loaded_sim();
    let r = s.complete_load(Err("cannot open libx.so".to_string()));
    match r {
        Response::LoadResult(Err(m)) => assert_eq!(m, "cannot open libx.so"),
        _ => panic!("expected a load error"),
    }
    assert_eq!(s.loaded.as_ref().unwrap().signals.len(), 3);
    let r = s.complete_load(Ok(vec![sig("clk", true, true)]));
    assert!(matches!(r, Response::LoadResult(Err(_))));
    assert_eq!(s.loaded.as_ref().unwrap().signals.len(), 3);
}

#[test]
fn reload_drops_probes_that_no_longer_resolve() {
    let mut s = loaded_sim();
    probe(&mut s, &["top.out", "top.in"]);
    let r = s.complete_load(Ok(vec![sig("top.in", true, true), sig("top.x", true, true)]));
    match r {
        Response::LoadResult(Ok(d)) => {
            assert!(!d.probed_points.contains("top.out"));
            assert!(d.probed_points.contains("top.in"));
            let mut v = InstanceHierViewer::new();
            v.set_loaded_dut(&d);
            assert!(v.leafs.iter().all(|l| l.path != "top.out" || !l.is_added));
            assert!(v.leafs[0].is_added);
            assert!(!v.leafs[1].is_added);
        }
        _ => panic!("expected a loaded design"),
    }
}

#[test]
fn modify_probes_is_all_or_nothing() {
    let mut s = loaded_sim();
    let mut add = PathSet::new();
    add.insert("top.out");
    add.insert("top.nope");
    let r = s.complete_modify(&add, &PathSet::new());
    match r {
        Response::ModifyProbedPointsResult(Err(m)) => assert!(m.contains("top.nope")),
        _ => panic!("expected a probe error"),
    }
    assert_eq!(s.loaded.as_ref().unwrap().probed_points.len(), 0);
    probe(&mut s, &["top.out"]);
    let mut rem = PathSet::new();
    rem.insert("top.out");
    rem.insert("top.unknown");
    let r = s.complete_modify(&PathSet::new(), &rem);
    assert!(matches!(r, Response::ModifyProbedPointsResult(Ok(()))));
    assert_eq!(s.loaded.as_ref().unwrap().probed_points.len(), 0);
}

#[test]
fn modify_without_design_fails() {
    let mut s = Simulator::new();
    let r = s.complete_modify(&PathSet::new(), &PathSet::new());
    assert!(matches!(r, Response::ModifyProbedPointsResult(Err(_))));
}

#[test]
fn run_records_one_sample_per_probed_signal() {
    let mut s = loaded_sim();
    probe(&mut s, &["top.in", "top.out"]);
    assert_eq!(s.probed_paths(), vec!["top.in", "top.out"]);
    let r = s.complete_run(Ok(1), vec![bits("1"), bits("0")]);
    assert!(matches!(r, Response::RunResult(Ok(1))));
    let r = s.complete_run(Ok(2), vec![bits("11"), bits("10")]);
    assert!(matches!(r, Response::RunResult(Ok(2))));
    assert_eq!(s.waves.len(), 2);
    let w = s.waves.iter().find(|w| w.signal_name == "top.out").unwrap();
    assert_eq!(w.width, 8);
    assert_eq!(w.values.len(), 2);
    assert_eq!(render(&w.values[1], 2), "10");
    let r = s.complete_run(Ok(3), vec![bits("1")]);
    assert!(matches!(r, Response::RunResult(Err(_))));
    assert_eq!(s.time, 2);
    let r = s.complete_run(Err("collaborator crashed".to_string()), vec![bits("1"), bits("1")]);
    assert!(matches!(r, Response::RunResult(Err(m)) if m == "collaborator crashed"));
    assert_eq!(s.time, 2);
}

#[test]
fn run_without_design_is_refused() {
    let s = Simulator::new();
    assert!(s.check_run().is_err());
    assert!(loaded_sim().check_run().is_ok());
}

#[test]
fn end_to_end_set_run_and_unknown_signal() {
    let mut s = loaded_sim();
    let set_value = match interpret("set in 10") {
        Ok(Command::SetSignal(n, v)) => s.prepare_set(&n, &v),
        _ => panic!("expected a set"),
    };
    let v = set_value.unwrap();
    assert_eq!(render(&v, 8), "00000010");
    assert!(matches!(s.complete_set(Ok(())), Response::SetSignalResult(Ok(()))));
    let dut = Dut::new("design.so");
    let t = match interpret("run 1") {
        Ok(Command::Run(d)) => dut.run(0, d).ok().unwrap(),
        _ => panic!("expected a run"),
    };
    let r = s.complete_run(Ok(t), vec![]);
    assert!(matches!(r, Response::RunResult(Ok(1))));
    match interpret("set bogus_signal 1") {
        Ok(Command::SetSignal(n, v)) => match s.prepare_set(&n, &v) {
            Err(m) => assert_eq!(m, "unknown signal bogus_signal"),
            Ok(_) => panic!("bogus_signal must be refused"),
        },
        _ => panic!("expected a set"),
    }
}

#[test]
fn set_validates_target_and_width() {
    let s = loaded_sim();
    assert_eq!(s.prepare_set("top.out", &bits("1")).err().unwrap(), "read-only signal top.out");
    assert_eq!(s.prepare_set("in", &bits("111111111")).err().unwrap(), "width mismatch for signal in");
    assert_eq!(render(&s.prepare_set("top.in", &bits("11111111")).unwrap(), 8), "11111111");
    assert_eq!(Simulator::new().prepare_set("in", &bits("1")).err().unwrap(), "no design loaded");
}

#[test]
fn design_answers_are_decoded() {
    let dut = Dut::new("libdut.so");
    assert_eq!(dut.lib_path, "libdut.so");
    assert!(matches!(dut.run(1, 5), Err(DutError::Run)));
    assert!(matches!(dut.query(None), Err(DutError::Query)));
    assert_eq!(dut.query(Some(design_signals())).ok().unwrap().len(), 3);
    assert!(dut.set("in", bits("1"), 0).is_ok());
    match dut.set("in", bits("1"), 2) {
        Err(DutError::SetSignal(n, b)) => {
            assert_eq!(n, "in");
            assert_eq!(b.len(), 1);
        }
        _ => panic!("expected a set error"),
    }
    match dut.get("out", None, 8) {
        Err(DutError::Get(n)) => assert_eq!(n, "out"),
        _ => panic!("expected a get error"),
    }
    let v = dut.get("out", Some(vec![0x12]), 8).ok().unwrap();
    assert_eq!(render(&v, 8), "00010010");
}
