use cortex::executor::{run_cortex_pipeline, BridgeExecutor, ModuleDriver};
use cortex::golden::{conclude, cortex_graph_spec, cortex_pipeline, take_output, CortexRun};
use cortex::passthrough::{prior_config, report_config, GroundReportEntry, GroundRun};
use cortex::tid::token_in_bytes;
use cortex::wire::{
    ModuleCommand, ModuleEdge, ModuleGraphSpec, ModuleKind, ModuleResponse, Packet, Reply, Request,
};
use cortex::TokenId;

fn position(token: &[u8]) -> (u32, u32) {
    let mut h: u64 = 0xcbf2_9ce4_8422_2325;
    for &b in token {
        h = (h ^ b as u64).wrapping_mul(0x0000_0100_0000_01b3);
    }
    h ^= h >> 29;
    ((h % 1024) as u32, ((h >> 10) % 32) as u32)
}

fn place(token: &Vec<u8>) -> (u32, u32) {
    position(token)
}

fn config(spec: &ModuleGraphSpec, node: u32, key: &str) -> String {
    let node = spec.nodes.iter().find(|n| n.node == node).unwrap();
    node.config.iter().find(|(k, _)| k == key).unwrap().1.clone()
}

fn numbers(csv: &str) -> Vec<u32> {
    csv.split(',')
        .filter(|s| !s.is_empty())
        .map(|s| s.parse().unwrap())
        .collect()
}

/// A small reference backend for the three module kinds.
struct Reference {
    graph: Option<ModuleGraphSpec>,
    fed: Vec<(u32, Packet)>,
    out: Vec<ModuleResponse>,
    silent: bool,
    refuse: Option<&'static str>,
}

impl Reference {
    fn new() -> Self {
        Reference {
            graph: None,
            fed: Vec::new(),
            out: Vec::new(),
            silent: false,
            refuse: None,
        }
    }

    fn emit(&mut self, node: u32, port: u32, ids: Vec<u32>, values: Vec<i64>) {
        if !self.silent {
            self.out.push(ModuleResponse::Other);
            self.out.push(ModuleResponse::Output {
                node,
                port,
                packet: Packet { ids, values },
            });
        }
    }
}

impl ModuleDriver for Reference {
    fn validate(&mut self, spec: ModuleGraphSpec) -> Result<(), String> {
        if spec.nodes.is_empty() {
            return Err("empty graph".to_string());
        }
        Ok(())
    }

    fn submit(&mut self, command: ModuleCommand) -> Result<(), String> {
        if let Some(words) = self.refuse {
            return Err(words.to_string());
        }
        match command {
            ModuleCommand::Configure { spec } => self.graph = Some(spec),
            ModuleCommand::Feed { node, packet, .. } => self.fed.push((node, packet)),
            ModuleCommand::Step { node } => {
                let graph = self.graph.take().unwrap();
                let kind = graph.nodes.iter().find(|n| n.node == node).unwrap().kind;
                let (_, packet) = self.fed.pop().unwrap();
                match kind {
                    ModuleKind::Slice => {
                        let lut = numbers(&config(&graph, node, "lut_ids"));
                        let ids = lut
                            .into_iter()
                            .filter(|&n| {
                                let (r, z) = position(&token_in_bytes(n));
                                packet.ids.contains(&(r * 32 + z))
                            })
                            .collect();
                        self.emit(node, 0, ids, Vec::new());
                    }
                    ModuleKind::Gate => {
                        let vocab = numbers(&config(&graph, node, "lut_ids"));
                        let ids = packet
                            .ids
                            .iter()
                            .copied()
                            .filter(|n| vocab.contains(n))
                            .collect();
                        self.emit(node, 0, ids, Vec::new());
                    }
                    ModuleKind::Ground => {
                        let prior = config(&graph, node, "prior");
                        let mut ids = Vec::new();
                        let mut values = Vec::new();
                        for part in prior.split(',').filter(|p| !p.is_empty()) {
                            let (id, w) = part.split_once(':').unwrap();
                            ids.push(id.parse().unwrap());
                            values.push(w.parse().unwrap());
                        }
                        self.emit(node, 0, ids, values);
                        let report = config(&graph, node, "report");
                        let scale: f64 = config(&graph, node, "scale").parse().unwrap();
                        let mut ids = Vec::new();
                        let mut values = Vec::new();
                        for part in report.split(',').filter(|p| !p.is_empty()) {
                            let fields: Vec<&str> = part.split(':').collect();
                            ids.push(fields[0].parse().unwrap());
                            for f in &fields[1..4] {
                                values.push((f.parse::<f64>().unwrap() * scale) as i64);
                            }
                            values.push(fields[4].parse().unwrap());
                        }
                        self.emit(node, 1, ids, values);
                    }
                }
                self.graph = Some(graph);
            }
        }
        Ok(())
    }

    fn drain(&mut self) -> Result<Vec<ModuleResponse>, String> {
        Ok(std::mem::take(&mut self.out))
    }
}

#[test]
fn dsl_declaration_is_valid_and_lowers() {
    let pipeline = cortex_pipeline();
    assert_eq!(pipeline.nodes().len(), 2);
    assert_eq!(pipeline.edges().len(), 1);
    assert_eq!(
        pipeline.edges()[0],
        ModuleEdge {
            from: (0, 0),
            to: (1, 0),
        }
    );
    assert_eq!(pipeline.nodes()[0].label, "materialize");
    assert_eq!(pipeline.nodes()[1].label, "gate_TF");
}

#[test]
fn out_of_vocab_ids_are_reported_not_hidden() {
    let doc = [0u32, 9];
    let vocab = [0u32, 1, 2, 3];
    let fpga = run_cortex_pipeline(Reference::new(), &doc, &vocab, &vocab, &place)
        .expect("golden run");

    // LUT is ungated: tid9 is registered and materialized...
    assert!(fpga.materialized_ids.contains(&9));
    // ...but the output gate filters it and reports it as a leak.
    assert_eq!(fpga.restored_ids, vec![0]);
    assert_eq!(fpga.leaks, vec![9]);
    assert!(!fpga.ok());
}

#[test]
fn clean_pass_restores_the_document() {
    let lut = [0, 1, 44, 464, 671, 1169, 16326, 18308, 27140];
    let doc = [1169u32, 44, 18308];
    let mut executor = BridgeExecutor::new(Reference::new());
    let fpga = executor
        .run_cortex_pipeline(&doc, &lut, &lut, &place)
        .expect("golden run");
    assert!(fpga.ok());
    assert_eq!(fpga.restored_ids, vec![44, 1169, 18308]);
    assert_eq!(fpga.materialized_ids, fpga.restored_ids);
    // The executor serves the next submission with a fresh graph.
    let next = executor
        .run_cortex_pipeline(&[7], &[], &[8], &place)
        .expect("golden run");
    assert_eq!(next.leaks, vec![7]);
}

#[test]
fn graph_carries_the_sorted_lut_and_the_vocabulary() {
    let spec = cortex_graph_spec(&[1, 2, 30], &[9, 4]);
    assert_eq!(config(&spec, 0, "encoding"), "tid");
    assert_eq!(config(&spec, 0, "lut_ids"), "1,2,30");
    assert_eq!(config(&spec, 1, "lut_ids"), "9,4");

    let run = CortexRun::start(&[5, 3, 5], &[(0, 2), (0, 1), (0, 2)], &[4, 3], &[8]);
    match run.request() {
        Some(Request::Validate(spec)) => assert_eq!(config(&spec, 0, "lut_ids"), "3,4,5"),
        other => panic!("unexpected request {other:?}"),
    }
}

#[test]
fn requests_follow_the_pipeline() {
    let mut run = CortexRun::start(&[5], &[(1, 2)], &[], &[5]);
    run.advance(Reply::Accepted);
    assert!(matches!(
        run.request(),
        Some(Request::Submit(ModuleCommand::Configure { .. }))
    ));
    run.advance(Reply::Accepted);
    match run.request() {
        Some(Request::Submit(ModuleCommand::Feed { node: 0, port: 0, packet })) => {
            assert_eq!(packet.ids, vec![34]);
        }
        other => panic!("unexpected request {other:?}"),
    }
    run.advance(Reply::Accepted);
    assert!(matches!(
        run.request(),
        Some(Request::Submit(ModuleCommand::Step { node: 0 }))
    ));
    run.advance(Reply::Accepted);
    assert!(matches!(run.request(), Some(Request::Drain)));
    run.advance(Reply::Drained(vec![
        ModuleResponse::Other,
        ModuleResponse::Output {
            node: 1,
            port: 0,
            packet: Packet { ids: vec![1], values: vec![] },
        },
        ModuleResponse::Output {
            node: 0,
            port: 0,
            packet: Packet { ids: vec![5, 6], values: vec![] },
        },
    ]));
    match run.request() {
        Some(Request::Submit(ModuleCommand::Feed { node: 1, port: 0, packet })) => {
            assert_eq!(packet.ids, vec![5, 6]);
        }
        other => panic!("unexpected request {other:?}"),
    }
    run.advance(Reply::Accepted);
    run.advance(Reply::Accepted);
    run.advance(Reply::Drained(vec![ModuleResponse::Output {
        node: 1,
        port: 0,
        packet: Packet { ids: vec![6], values: vec![] },
    }]));
    assert!(run.is_done() && run.request().is_none());
    let pass = run.outcome().unwrap();
    assert_eq!(pass.leaks, vec![5]);
}

#[test]
fn missing_output_is_an_error() {
    let mut driver = Reference::new();
    driver.silent = true;
    let err = run_cortex_pipeline(driver, &[1], &[], &[1], &place).unwrap_err();
    assert_eq!(err, "no output on node 0 port 0");
    assert_eq!(
        take_output(vec![ModuleResponse::Other], 12, 305).unwrap_err(),
        "no output on node 12 port 305"
    );
}

#[test]
fn refusals_carry_the_words_of_the_bridge() {
    let mut driver = Reference::new();
    driver.refuse = Some("trap");
    assert_eq!(
        run_cortex_pipeline(driver, &[1], &[], &[1], &place).unwrap_err(),
        "trap"
    );
    let mut run = CortexRun::start(&[], &[], &[], &[]);
    run.advance(Reply::Refused("bad graph".to_string()));
    assert!(run.is_done());
    assert_eq!(run.outcome().unwrap_err(), "bad graph");
}

#[test]
fn leaks_keep_order_and_repetition() {
    let pass = conclude(vec![3, 1, 3, 2], vec![1]);
    assert_eq!(pass.leaks, vec![3, 3, 2]);
    assert!(conclude(vec![1, 1], vec![1]).ok());
}

fn entry(id: TokenId, tau: &str, rho: &str, srho: &str, r_link: u64) -> GroundReportEntry {
    GroundReportEntry {
        id,
        tau: tau.to_string(),
        rho: rho.to_string(),
        srho: srho.to_string(),
        r_link,
    }
}

#[test]
fn verdicts_pass_through_verbatim() {
    let mut executor = BridgeExecutor::new(Reference::new());
    let out = executor
        .run_ground_passthrough(
            &[(4, 7), (9, -3)],
            &[entry(4, "0.5", "0.5", "0", 2)],
            1000,
        )
        .expect("ground run");
    assert_eq!(out.prior_ids, vec![4, 9]);
    assert_eq!(out.prior_values, vec![7, -3]);
    assert_eq!(out.report_ids, vec![4]);
    assert_eq!(out.report_values, vec![500, 500, 0, 2]);
}

#[test]
fn verdict_texts_follow_the_wire_format() {
    assert_eq!(prior_config(&[(1, -9223372036854775808), (2, 0)]), "1:-9223372036854775808,2:0");
    assert_eq!(
        report_config(&[entry(1, "1", "0", "0", 3), entry(20, "0.25", "0.75", "0", 18446744073709551615)]),
        "1:1:0:0:3,20:0.25:0.75:0:18446744073709551615"
    );
    assert_eq!(prior_config(&[]), "");
}

#[test]
fn scale_must_be_positive() {
    let mut executor = BridgeExecutor::new(Reference::new());
    assert_eq!(
        executor.run_ground_passthrough(&[], &[], 0).unwrap_err(),
        "scale must be positive, got 0"
    );
    assert_eq!(
        GroundRun::start(&[], &[], -12).unwrap_err(),
        "scale must be positive, got -12"
    );
}

fn ground_output(port: u32, ids: Vec<u32>) -> ModuleResponse {
    ModuleResponse::Output { node: 0, port, packet: Packet { ids, values: vec![] } }
}

fn drained_ground(responses: Vec<ModuleResponse>) -> GroundRun {
    let mut run = GroundRun::start(&[], &[], 1).unwrap();
    for _ in 0..4 {
        run.advance(Reply::Accepted);
    }
    assert!(matches!(run.request(), Some(Request::Drain)));
    run.advance(Reply::Drained(responses));
    run
}

#[test]
fn both_ground_packets_are_needed() {
    assert_eq!(
        drained_ground(vec![ground_output(1, vec![])]).outcome().unwrap_err(),
        "no prior packet on ground port 0"
    );
    assert_eq!(
        drained_ground(vec![ground_output(0, vec![])]).outcome().unwrap_err(),
        "no report packet on ground port 1"
    );
}

#[test]
fn last_ground_packet_of_a_port_counts() {
    let out = drained_ground(vec![
        ground_output(0, vec![1]),
        ground_output(1, vec![2]),
        ground_output(0, vec![3]),
        ground_output(5, vec![4]),
    ])
    .outcome()
    .unwrap();
    assert_eq!(out.prior_ids, vec![3]);
    assert_eq!(out.report_ids, vec![2]);
}

/// A backend that keeps count of its calls outside.
struct Counted<'a> {
    inner: Reference,
    calls: &'a std::cell::RefCell<Vec<String>>,
}

impl ModuleDriver for Counted<'_> {
    fn validate(&mut self, spec: ModuleGraphSpec) -> Result<(), String> {
        self.calls.borrow_mut().push(format!("validate {}", config(&spec, 0, "lut_ids")));
        self.inner.validate(spec)
    }

    fn submit(&mut self, command: ModuleCommand) -> Result<(), String> {
        let name = match &command {
            ModuleCommand::Configure { spec } => {
                format!("configure {}", config(spec, 0, "lut_ids"))
            }
            ModuleCommand::Feed { node, .. } => format!("feed {node}"),
            ModuleCommand::Step { node } => format!("step {node}"),
        };
        self.calls.borrow_mut().push(name);
        self.inner.submit(command)
    }

    fn drain(&mut self) -> Result<Vec<ModuleResponse>, String> {
        self.calls.borrow_mut().push("drain".to_string());
        self.inner.drain()
    }
}

#[test]
fn each_request_reaches_the_driver_once() {
    let calls = std::cell::RefCell::new(Vec::new());
    let driver = Counted { inner: Reference::new(), calls: &calls };
    run_cortex_pipeline(driver, &[4], &[2], &[4], &place).unwrap();
    assert_eq!(
        calls.into_inner(),
        vec![
            "validate 2,4",
            "configure 2,4",
            "feed 0",
            "step 0",
            "drain",
            "feed 1",
            "step 1",
            "drain",
        ]
    );
}

#[test]
fn a_refused_scale_leaves_the_driver_alone() {
    let calls = std::cell::RefCell::new(Vec::new());
    let driver = Counted { inner: Reference::new(), calls: &calls };
    let mut executor = BridgeExecutor::new(driver);
    assert_eq!(
        executor.run_ground_passthrough(&[], &[], -1).unwrap_err(),
        "scale must be positive, got -1"
    );
    assert!(calls.borrow().is_empty());
}

#[test]
fn earlier_tenants_leave_no_trace() {
    let doc = [1u32, 9];
    let vocab = [1u32, 2];
    let alone = run_cortex_pipeline(Reference::new(), &doc, &vocab, &vocab, &place).unwrap();

    let mut shared = BridgeExecutor::new(Reference::new());
    shared.run_cortex_pipeline(&[5, 6], &[7], &[5], &place).unwrap();
    shared.run_ground_passthrough(&[(3, 4)], &[], 10).unwrap();
    let after = shared.run_cortex_pipeline(&doc, &vocab, &vocab, &place).unwrap();
    assert_eq!(after.materialized_ids, alone.materialized_ids);
    assert_eq!(after.restored_ids, alone.restored_ids);
    assert_eq!(after.leaks, alone.leaks);
    assert_eq!(after.leaks, vec![9]);
}

#[test]
fn results_can_be_copied() {
    let pass = conclude(vec![3, 1, 2], vec![1]);
    assert_eq!(pass.clone(), pass);
    let declared = entry(4, "0.5", "0.25", "0", 2);
    assert_eq!(declared.clone(), declared);
    let mut executor = BridgeExecutor::new(Reference::new());
    let out = executor.run_ground_passthrough(&[(4, 7)], &[declared], 100).unwrap();
    assert_eq!(out.report_values, vec![50, 25, 0, 2]);
    assert_eq!(out.clone(), out);
}
