//! Runs against a game whose memory is made up.

use forza_painter::chain::LiveryChain;
use forza_painter::device::{
    Color, Coordinate, Field, FieldWrite, Reply, Request,
};
use forza_painter::diagnosis::Diagnosis;
use forza_painter::geometry::{Geometry, Shape};
use forza_painter::importer::{
    diagnose, load_geometry, Import, ImportArgs, ImportError, StartError,
};
use forza_painter::locator::{Locator, Session};
use forza_painter::notices::Notice;
use forza_painter::probe::{
    auto_locate, count_scored, describe_entry, inspect_table, inspection_heading,
    inspection_summary, load_session, not_located_text, process_name, session_text, Inspection,
};
use forza_painter::procs::GameProc;
use forza_painter::profiles::{get_profile, GameProfile};
use forza_painter::winmem::{MemoryInfo, Region, RegionWalk};

const BASE: u64 = 0x1_4000_0000;

struct Game {
    base: Option<u64>,
    memory: Vec<(u64, Vec<u8>)>,
    regions: Vec<Region>,
    seconds: u64,
    refuse_after: usize,
    writes: Vec<FieldWrite>,
    requests: usize,
}

impl Game {
    fn new() -> Game {
        Game {
            base: Some(BASE),
            memory: Vec::new(),
            regions: Vec::new(),
            seconds: 0,
            refuse_after: usize::MAX,
            writes: Vec::new(),
            requests: 0,
        }
    }

    fn put(&mut self, address: u64, bytes: &[u8]) {
        for (start, block) in self.memory.iter_mut() {
            if *start <= address && address + bytes.len() as u64 <= *start + block.len() as u64 {
                let from = (address - *start) as usize;
                block[from..from + bytes.len()].copy_from_slice(bytes);
                return;
            }
        }
        self.memory.push((address, bytes.to_vec()));
    }

    fn put_u64(&mut self, address: u64, n: u64) {
        self.put(address, &n.to_le_bytes());
    }

    fn read(&self, address: u64, size: u64) -> Vec<u8> {
        for (start, block) in &self.memory {
            if *start <= address && address < *start + block.len() as u64 {
                let from = (address - *start) as usize;
                let to = (from as u64).saturating_add(size).min(block.len() as u64) as usize;
                return block[from..to].to_vec();
            }
        }
        Vec::new()
    }

    fn info(&self, address: u64) -> Option<MemoryInfo> {
        for r in &self.regions {
            if r.base <= address && address < r.base + r.size {
                return Some(MemoryInfo {
                    base: r.base,
                    size: r.size,
                    state: 0x1000,
                    protect: 0x04,
                    kind: 0x20000,
                });
            }
        }
        None
    }

    fn perform(&mut self, request: Request) -> Reply {
        self.requests += 1;
        match request {
            Request::Base => Reply::Base(self.base),
            Request::Read(spans) => {
                Reply::Blocks(spans.iter().map(|s| self.read(s.address, s.size)).collect())
            }
            Request::Query(addresses) => {
                Reply::Infos(addresses.iter().map(|a| self.info(*a)).collect())
            }
            Request::Regions => Reply::Regions(self.regions.clone()),
            Request::Clock { .. } => Reply::Seconds(self.seconds),
            Request::Write(w) => {
                if self.writes.len() >= self.refuse_after {
                    Reply::Written(false)
                } else {
                    self.writes.push(w);
                    Reply::Written(true)
                }
            }
        }
    }
}

fn fh6() -> GameProfile {
    get_profile("fh6").unwrap()
}

fn found() -> Vec<GameProc> {
    vec![GameProc {
        pid: 7,
        name: "ForzaHorizon6.exe".to_string(),
        profile_key: "fh6".to_string(),
    }]
}

fn args() -> ImportArgs {
    ImportArgs {
        game: None,
        pid: None,
        layer_count_address: None,
        layer_table_address: None,
        expected_count: None,
        edge_mask: false,
    }
}

const SIGNATURE: [u8; 8] = [0x12, 0x47, 0x9B, 0x13, 0x29, 0xD9, 0xA2, 0xB1];

/// A game with the signature in the second range, and all pointers behind it.
fn game_with_chain() -> Game {
    let mut g = Game::new();
    let mut block = vec![0u8; 0x1000];
    block[0x100..0x108].copy_from_slice(&SIGNATURE);
    block[0x170..0x178].copy_from_slice(&SIGNATURE);
    block[0x1B8..0x1C0].copy_from_slice(&0x50_0000u64.to_le_bytes());
    g.put(BASE + 0x0800_0000, &block);
    g.put_u64(0x50_0000 + 0xA58, 0x60_0000);
    g.put_u64(0x60_0000 + 0x8, 0x70_0000);
    g
}

fn run_chain(g: &mut Game) -> LiveryChain {
    let mut c = LiveryChain::new(fh6());
    while let Some(r) = c.request() {
        c.answer(g.perform(r));
    }
    c
}

#[test]
fn livery_is_found_through_the_pointers() {
    let mut g = game_with_chain();
    let c = run_chain(&mut g);
    assert_eq!(c.livery(), Some(0x70_0000));
    assert_eq!(
        *c.notices(),
        vec![
            Notice::ScanningFor,
            Notice::ScanningRange { offset: 0x0600_0000, size: 0x0200_0000 },
            Notice::ScanningRange { offset: 0x0800_0000, size: 0x0200_0000 },
            Notice::SignatureAt { pattern: 0, offset: 0x0800_0100 },
            Notice::RootPointerAt { offset: 0x0800_01B8 },
        ]
    );
}

#[test]
fn livery_search_says_what_is_missing() {
    let mut g = game_with_chain();
    g.put(BASE + 0x0800_0170, &[0]);
    let c = run_chain(&mut g);
    assert_eq!(c.livery(), None);
    assert_eq!(*c.notices().last().unwrap(), Notice::ValidationFailed { offset: 0x0800_0100 });

    let mut g = game_with_chain();
    g.put_u64(0x60_0000 + 0x8, 0);
    let c = run_chain(&mut g);
    assert_eq!(c.livery(), None);
    assert_eq!(*c.notices().last().unwrap(), Notice::MenuNotDetected);

    let mut g = Game::new();
    let c = run_chain(&mut g);
    assert_eq!(c.livery(), None);
    assert_eq!(*c.notices().last().unwrap(), Notice::NeedsNewSignature);

    let mut g = Game::new();
    g.base = None;
    let c = run_chain(&mut g);
    assert_eq!(c.livery(), None);
    assert_eq!(*c.notices(), vec![Notice::BaseUnavailable]);
}

fn run_diagnosis(g: &mut Game) -> Diagnosis {
    let (pid, mut d) = diagnose(&args(), &found()).unwrap();
    assert_eq!(pid, 7);
    while let Some(r) = d.request() {
        assert!(!matches!(r, Request::Write(_)));
        d.answer(g.perform(r));
    }
    d
}

#[test]
fn diagnosis_reports_every_range() {
    let mut g = game_with_chain();
    let d = run_diagnosis(&mut g);
    assert!(d.valid());
    assert_eq!(
        *d.notices(),
        vec![
            Notice::Diagnostics { pid: 7 },
            Notice::BaseAt { base: BASE },
            Notice::NoMatch { offset: 0x0600_0000, size: 0x0200_0000 },
            Notice::SignatureAt { pattern: 0, offset: 0x0800_0100 },
            Notice::Mirror { equal: true },
            Notice::RootPointer { value: 0x50_0000 },
            Notice::EditorPointer { value: 0x60_0000 },
            Notice::LiveryPointer { value: 0x70_0000 },
            Notice::NoMatch { offset: 0x0A00_0000, size: 0x0200_0000 },
        ]
    );

    let mut g = game_with_chain();
    g.put_u64(BASE + 0x0800_01B8, 0);
    let d = run_diagnosis(&mut g);
    assert!(!d.valid());
    assert_eq!(*d.notices().last().unwrap(), Notice::NoValidChain);

    let mut g = Game::new();
    g.base = None;
    let d = run_diagnosis(&mut g);
    assert!(!d.valid());
    assert_eq!(*d.notices(), vec![Notice::ProcessUnavailable { pid: 7 }]);
}

#[test]
fn diagnosis_needs_a_game() {
    let e = diagnose(&args(), &Vec::new()).err().unwrap();
    assert!(matches!(e, StartError::NoProcess));
    assert_eq!(e.diagnosis_text(), "No supported Forza Horizon process is running.");
    assert_eq!(e.text(), "No supported Forza Horizon process is running");
    let mut a = args();
    a.game = Some("fh4".to_string());
    a.pid = Some(3);
    let e = diagnose(&a, &Vec::new()).err().unwrap();
    assert_eq!(e.diagnosis_text(), "Unsupported game profile 'fh4'.");
    assert_eq!(e.text(), "Unsupported game 'fh4'");
}

const GEOMETRY: &str = "{\"shapes\":[{\"type\":8,\"data\":[0,0,100,60],\"color\":[10,20,30,255]},{\"type\":16,\"data\":[5,6,7,8,90],\"color\":[1,2,3,128]},{\"type\":1,\"data\":[9,9,9,9,0],\"color\":[4,5,6,255]}]}";

fn start(text: &str, a: &ImportArgs) -> Import {
    load_geometry(text, a, &found()).unwrap().unwrap().1
}

fn run_import(g: &mut Game, mut i: Import) -> Import {
    while let Some(r) = i.request() {
        i.answer(g.perform(r));
    }
    i
}

/// A game with a table of `n` layers at 0x9_0000.
fn game_with_table(n: u64) -> Game {
    let mut g = Game::new();
    let mut table = Vec::new();
    for i in 0..n {
        table.extend_from_slice(&(0x100_0000 + i * 0x100).to_le_bytes());
    }
    g.put(0x9_0000, &table);
    g.put(0x8_0000, &(n as u32).to_le_bytes());
    g
}

fn manual(count: u32) -> ImportArgs {
    let mut a = args();
    a.layer_count_address = Some(0x8_0000);
    a.layer_table_address = Some(0x9_0000);
    a.expected_count = Some(count);
    a
}

fn writes_of(g: &Game, layer: u64) -> Vec<Field> {
    let at = 0x100_0000 + layer * 0x100;
    g.writes
        .iter()
        .filter(|w| at <= w.address && w.address < at + 0x100)
        .map(|w| w.field)
        .collect()
}

#[test]
fn import_writes_shapes_and_hides_the_rest() {
    let mut g = game_with_table(120);
    let i = run_import(&mut g, start(GEOMETRY, &manual(120)));
    assert_eq!(i.result(), Ok(()));
    assert_eq!(g.writes.len(), 120 * 6);
    assert_eq!(
        writes_of(&g, 0),
        vec![
            Field::Position { x: Coordinate::Whole(50), y: Coordinate::Whole(30) },
            Field::Scale {
                w: Coordinate::Whole(100),
                h: Coordinate::Whole(60),
                divisor: 127
            },
            Field::Rotation(Coordinate::Whole(0)),
            Field::Color(Color { r: 10, g: 20, b: 30, a: 255 }),
            Field::ShapeId(101),
            Field::Mask(0),
        ]
    );
    assert_eq!(
        writes_of(&g, 1),
        vec![
            Field::Position {
                x: Coordinate::Bits(5f64.to_bits()),
                y: Coordinate::Bits(6f64.to_bits())
            },
            Field::Scale {
                w: Coordinate::Bits(7f64.to_bits()),
                h: Coordinate::Bits(8f64.to_bits()),
                divisor: 63
            },
            Field::Rotation(Coordinate::Bits(90f64.to_bits())),
            Field::Color(Color { r: 1, g: 2, b: 3, a: 128 }),
            Field::ShapeId(102),
            Field::Mask(0),
        ]
    );
    let hidden = vec![
        Field::Position { x: Coordinate::Whole(-100000), y: Coordinate::Whole(-100000) },
        Field::Scale { w: Coordinate::Whole(0), h: Coordinate::Whole(0), divisor: 127 },
        Field::Rotation(Coordinate::Whole(0)),
        Field::Color(Color { r: 0, g: 0, b: 0, a: 0 }),
        Field::ShapeId(101),
        Field::Mask(1),
    ];
    assert_eq!(writes_of(&g, 3), hidden);
    assert_eq!(writes_of(&g, 119), hidden);
    let n = i.notices();
    assert_eq!(n[0], Notice::GameRunning { pid: 7 });
    assert_eq!(n[1], Notice::TemplateCount { count: 120, address: 0x8_0000 });
    assert_eq!(n[2], Notice::TableAt { address: 0x9_0000 });
    assert_eq!(n[3], Notice::WritingLayer { layer: 1, total: 120 });
    assert_eq!(n[4], Notice::WritingLayer { layer: 100, total: 120 });
    assert_eq!(n[5], Notice::WritingLayer { layer: 120, total: 120 });
    assert_eq!(n[6], Notice::Done);
    assert_eq!(n[7], Notice::BackgroundColor { r: 10, g: 20, b: 30 });
    assert_eq!(n.len(), 8);
}

#[test]
fn offsets_of_a_layer_are_those_of_the_profile() {
    let mut g = game_with_table(100);
    let i = run_import(&mut g, start(GEOMETRY, &manual(100)));
    assert_eq!(i.result(), Ok(()));
    let offsets: Vec<u64> = g.writes[..6].iter().map(|w| w.address - 0x100_0000).collect();
    assert_eq!(offsets, vec![0x18, 0x28, 0x50, 0x74, 0x7A, 0x78]);
}

#[test]
fn edge_masks_stand_behind_the_shapes() {
    let mut g = game_with_table(100);
    let mut a = manual(100);
    a.edge_mask = true;
    let i = run_import(&mut g, start(GEOMETRY, &a));
    assert_eq!(i.result(), Ok(()));
    let at = |layer: u64| (writes_of(&g, layer)[0], writes_of(&g, layer)[1]);
    let w = |n: i64| Coordinate::Whole(n);
    assert_eq!(
        at(3),
        (
            Field::Position { x: w(-25), y: w(30) },
            Field::Scale { w: w(50), h: w(90), divisor: 127 }
        )
    );
    assert_eq!(
        at(4),
        (
            Field::Position { x: w(125), y: w(30) },
            Field::Scale { w: w(50), h: w(90), divisor: 127 }
        )
    );
    assert_eq!(
        at(5),
        (
            Field::Position { x: w(50), y: w(-15) },
            Field::Scale { w: w(200), h: w(30), divisor: 127 }
        )
    );
    assert_eq!(
        at(6),
        (
            Field::Position { x: w(50), y: w(75) },
            Field::Scale { w: w(200), h: w(30), divisor: 127 }
        )
    );
    assert_eq!(writes_of(&g, 6)[3], Field::Color(Color { r: 0, g: 0, b: 0, a: 255 }));
    assert_eq!(writes_of(&g, 6)[5], Field::Mask(1));
}

#[test]
fn four_layers_are_kept_free() {
    let mut shape = String::new();
    for i in 0..200 {
        shape.push_str(&format!(",{{\"type\":16,\"data\":[{i},0,1,1,0],\"color\":[1,1,1,1]}}"));
    }
    let text = format!(
        "{{\"shapes\":[{{\"type\":8,\"data\":[0,0,9,9],\"color\":[0,0,0,0]}}{shape}]}}"
    );
    let mut g = game_with_table(100);
    let i = run_import(&mut g, start(&text, &manual(100)));
    assert_eq!(i.result(), Ok(()));
    assert_eq!(writes_of(&g, 95)[5], Field::Mask(0));
    assert_eq!(writes_of(&g, 96)[5], Field::Mask(1));
    assert_eq!(
        writes_of(&g, 0)[0],
        Field::Position { x: Coordinate::Bits(0), y: Coordinate::Bits(0) }
    );
}

#[test]
fn failed_writes_end_an_import() {
    let mut g = game_with_table(120);
    g.refuse_after = 8;
    let i = run_import(&mut g, start(GEOMETRY, &manual(120)));
    assert_eq!(i.result(), Err(ImportError::WriteFailed));
    assert_eq!(g.writes.len(), 8);
    let n = i.notices();
    assert_eq!(
        n[4..],
        [
            Notice::WriteFailed { slot: 2 },
            Notice::LikelyWrongTable,
            Notice::UseLargerTemplate,
            Notice::LocateAgain
        ]
    );

    let mut g = game_with_table(120);
    g.refuse_after = 16 * 6;
    let i = run_import(&mut g, start(GEOMETRY, &manual(120)));
    assert_eq!(i.result(), Err(ImportError::WriteFailed));
    let n = i.notices();
    assert_eq!(
        n[4..],
        [Notice::WriteFailed { slot: 17 }, Notice::PossiblyGrouped, Notice::CheckEditor]
    );
}

#[test]
fn imports_that_cannot_start_write_nothing() {
    let mut g = game_with_table(99);
    let i = run_import(&mut g, start(GEOMETRY, &manual(99)));
    assert_eq!(i.result(), Err(ImportError::TooFewLayers));
    assert_eq!(ImportError::TooFewLayers.text(), "Layer count below 100");
    assert!(g.writes.is_empty());

    let mut g = Game::new();
    g.put(0x8_0000, &200u32.to_le_bytes());
    let mut a = manual(200);
    a.layer_table_address = None;
    let i = run_import(&mut g, start(GEOMETRY, &a));
    assert_eq!(i.result(), Err(ImportError::NoTable));
    assert_eq!(
        i.notices()[2],
        Notice::ManualTable { field: 0x8_001E, table: 0 }
    );

    let mut g = Game::new();
    let i = run_import(&mut g, start(GEOMETRY, &args()));
    assert_eq!(i.result(), Err(ImportError::NoLivery));

    let mut g = game_with_chain();
    let i = run_import(&mut g, start(GEOMETRY, &args()));
    assert_eq!(i.result(), Err(ImportError::NoGroup));
    assert!(g.writes.is_empty());
}

#[test]
fn import_through_the_livery_reads_count_and_table() {
    let mut g = game_with_table(150);
    let chain = game_with_chain();
    g.memory.extend(chain.memory);
    g.put_u64(0x70_0000 + 0x20, 0x80_0000);
    g.put(0x80_0000 + 0x5A, &150u32.to_le_bytes());
    g.put_u64(0x80_0000 + 0x78, 0x9_0000);
    let i = run_import(&mut g, start(GEOMETRY, &args()));
    assert_eq!(i.result(), Ok(()));
    assert_eq!(g.writes.len(), 150 * 6);
    assert!(i.notices().contains(&Notice::LiveryAt { address: 0x70_0000 }));
    assert!(i.notices().contains(&Notice::GroupAt { address: 0x80_0000 }));
}

#[test]
fn the_count_is_two_bytes_in_one_game_and_four_in_the_other() {
    let mut g = game_with_table(300);
    g.put(0x8_0000, &[0x2C, 0x01, 0x01, 0x00]);
    let mut a = manual(0);
    a.expected_count = None;
    let i = run_import(&mut g, start(GEOMETRY, &a));
    assert_eq!(i.notices()[1], Notice::ManualShortCount { address: 0x8_0000, count: 300 });
    assert_eq!(i.result(), Ok(()));

    let mut g = game_with_table(300);
    g.put(0x8_0000, &[0x2C, 0x01, 0x00, 0x00]);
    a.game = Some("fh5".to_string());
    a.pid = Some(9);
    let i = run_import(&mut g, start(GEOMETRY, &a));
    assert_eq!(i.notices()[1], Notice::ManualCount { address: 0x8_0000, count: 300 });
    assert_eq!(i.result(), Ok(()));
}

#[test]
fn layers_without_a_pointer_are_passed_over() {
    let mut g = game_with_table(110);
    g.put(0x8_0000, &130u32.to_le_bytes());
    let i = run_import(&mut g, start(GEOMETRY, &manual(130)));
    assert_eq!(i.result(), Ok(()));
    assert_eq!(g.writes.len(), 110 * 6);
}

#[test]
fn an_import_can_be_made_of_shapes() {
    let shape = Shape {
        type_id: 16,
        x: Coordinate::Whole(1),
        y: Coordinate::Whole(2),
        w: Coordinate::Whole(3),
        h: Coordinate::Whole(4),
        rot_deg: Coordinate::Whole(5),
        color: Color { r: 1, g: 1, b: 1, a: 1 },
        is_mask: false,
    };
    let geometry = Geometry {
        image_w: 1,
        image_h: 1,
        background: Color { r: 0, g: 0, b: 0, a: 0 },
        shapes: vec![shape],
    };
    let mut g = game_with_table(100);
    let i = run_import(&mut g, Import::new(fh6(), 1, true, &manual(100), geometry));
    assert_eq!(i.result(), Ok(()));
    assert_eq!(writes_of(&g, 0)[4], Field::ShapeId(102));
}

const GROUP: u64 = 0x2000_0000;
const LAYERS: u64 = 0x3000_0000;
const TABLE: u64 = 0x4000_0000;

/// A game with a group of `n` layers, the number of which is stored as `stored`.
fn game_with_group(n: u64, stored: u16) -> Game {
    let mut g = Game::new();
    let mut group = vec![0u8; 0x200];
    group[0x100 + 0x5A..0x100 + 0x5C].copy_from_slice(&stored.to_le_bytes());
    group[0x100 + 0x78..0x100 + 0x80].copy_from_slice(&TABLE.to_le_bytes());
    g.put(GROUP, &group);
    let mut table = Vec::new();
    let mut layers = Vec::new();
    for i in 0..n {
        table.extend_from_slice(&(LAYERS + i * 0x100).to_le_bytes());
        let mut layer = vec![0u8; 0x100];
        layer[0x18..0x1C].copy_from_slice(&1.5f32.to_le_bytes());
        layer[0x28..0x2C].copy_from_slice(&0.5f32.to_le_bytes());
        layer[0x2C..0x30].copy_from_slice(&0.5f32.to_le_bytes());
        layer[0x74..0x78].copy_from_slice(&[1, 2, 3, 255]);
        layer[0x7A] = 102;
        layers.extend_from_slice(&layer);
    }
    g.regions = vec![
        Region { base: GROUP, size: group.len() as u64 },
        Region { base: LAYERS, size: layers.len() as u64 },
        Region { base: TABLE, size: table.len() as u64 },
    ];
    g.put(LAYERS, &layers);
    g.put(TABLE, &table);
    g
}

fn run_locator(g: &mut Game, mut l: Locator) -> Locator {
    while let Some(r) = l.request() {
        assert!(!matches!(r, Request::Write(_)));
        l.answer(g.perform(r));
    }
    l
}

fn locate(g: &mut Game, count: u32) -> Locator {
    let l = auto_locate(Some("fh6"), None, count, &found()).unwrap().1;
    run_locator(g, l)
}

#[test]
fn layers_are_located_by_their_number() {
    let mut g = game_with_group(600, 600);
    let l = locate(&mut g, 600);
    let s = l.session().unwrap();
    assert_eq!(
        s,
        Session {
            pid: 7,
            layer_count: 600,
            group_address: GROUP + 0x100,
            count_address: GROUP + 0x15A,
            table_pointer_field: GROUP + 0x178,
            table_address: TABLE,
            score: 64 * 5 + 64 + 60,
        }
    );
    let n = l.notices();
    assert_eq!(n[0], Notice::AutoLocating { count: 600 });
    assert_eq!(n[1], Notice::ScanningForCount { count: 600 });
    assert_eq!(
        n[2],
        Notice::LayoutCandidate {
            group: GROUP + 0x100,
            count: GROUP + 0x15A,
            table: TABLE,
            validated: 600,
            layers: 600,
        }
    );
    assert!(matches!(n[3], Notice::Candidate { score: 444, .. }));
    assert!(matches!(n[4], Notice::TableSample { .. }));
    assert_eq!(n.len(), 9);
    assert_eq!(n[8], Notice::SavedSession { session: s });
}

#[test]
fn a_number_off_by_one_is_located() {
    let mut g = game_with_group(600, 599);
    let l = locate(&mut g, 600);
    let s = l.session().unwrap();
    assert_eq!(s.layer_count, 599);
    assert!(l.notices().contains(&Notice::LockedOnto { matched: 599, entered: 600 }));

    let mut g = game_with_group(600, 596);
    assert_eq!(locate(&mut g, 600).session(), None);
}

#[test]
fn a_table_that_does_not_cover_the_template_is_refused() {
    let mut g = game_with_group(300, 600);
    assert_eq!(locate(&mut g, 600).session(), None);
    assert_eq!(
        not_located_text(),
        "No safe FH6 layer group found near that count. Use an UNGROUPED template and enter the EXACT current layer count, then re-run Auto-locate."
    );

    let mut g = game_with_group(600, 600);
    g.regions.remove(1);
    assert_eq!(locate(&mut g, 600).session(), None);
}

#[test]
fn a_search_ends_in_time() {
    let mut g = game_with_group(600, 600);
    g.seconds = 46;
    let l = locate(&mut g, 600);
    assert_eq!(l.session(), None);
    assert_eq!(
        *l.notices(),
        vec![Notice::AutoLocating { count: 600 }, Notice::StoppedAfterSeconds]
    );
    g.seconds = 45;
    assert!(locate(&mut g, 600).session().is_some());
}

#[test]
fn a_search_ends_after_many_places() {
    let mut g = Game::new();
    let block = vec![1u8; 210_000];
    g.regions = vec![Region { base: GROUP, size: block.len() as u64 }];
    g.put(GROUP, &block);
    let l = locate(&mut g, 0x101);
    assert_eq!(l.session(), None);
    assert!(l.notices().contains(&Notice::StoppedAfterHits));
}

#[test]
fn large_and_empty_regions_are_left_out() {
    let mut g = game_with_group(600, 600);
    g.regions.insert(0, Region { base: 0x5_0000_0000, size: 0x1000_0001 });
    g.regions.insert(0, Region { base: 0x6_0000_0000, size: 0 });
    assert!(locate(&mut g, 600).session().is_some());
}

#[test]
fn a_table_can_be_looked_at() {
    let mut g = game_with_group(20, 20);
    g.put_u64(TABLE + 8, 0x10);
    let mut i: Inspection = inspect_table(None, None, TABLE, 20, 12, &found()).unwrap().1;
    while let Some(r) = i.request() {
        assert!(!matches!(r, Request::Write(_)));
        i.answer(g.perform(r));
    }
    let e = i.entries();
    assert_eq!(e.len(), 12);
    assert_eq!(e[0].pointer, LAYERS);
    assert!(e[1].layer.is_none());
    assert_eq!(count_scored(e), 11);
    assert_eq!(inspection_heading(TABLE, 20), "Inspecting table=0x40000000 layers=20");
    assert_eq!(inspection_summary(e), "Valid scored layer entries: 11");
    let lines = describe_entry(&e[0], "1.50,0.00", "0.500,0.500");
    assert_eq!(lines[0], "table[0] @0x40000000 -> 0x30000000");
    assert_eq!(
        lines[1],
        "  layer score=5 pos=1.50,0.00; scale=0.500,0.500; color=01 02 03 ff; shape=102; mask=0"
    );
    assert_eq!(lines.len(), 10);
    assert_eq!(lines[2], "  +0x000: 00 00 00 00 00 00 00 00 00 00 00 00 00 00 00 00");
    assert_eq!(lines[9], "  +0x070: 00 00 00 00 01 02 03 ff 00 00 66 00 00 00 00 00");
    assert_eq!(
        describe_entry(&e[1], "", ""),
        vec!["table[1] @0x40000008 -> 0x10".to_string()]
    );
}

#[test]
fn a_walk_keeps_private_memory() {
    let mut w = RegionWalk::new(true);
    while let Some(a) = w.query() {
        let info = |base: u64, size: u64, protect: u32, kind: u32| {
            Some(MemoryInfo { base, size, state: 0x1000, protect, kind })
        };
        let reply = if a < 0x2_0000 {
            info(0x1_0000, 0x1_0000, 0x04, 0x20000)
        } else if a < 0x3_0000 {
            info(0x2_0000, 0x1_0000, 0x104, 0x20000)
        } else if a < 0x4_0000 {
            info(0x3_0000, 0x1_0000, 0x04, 0x40000)
        } else {
            info(0x4_0000, 0x7FFF_FFFF_FFFF - 0x4_0000, 0x01, 0x20000)
        };
        w.answer(reply);
    }
    assert_eq!(*w.regions(), vec![Region { base: 0x1_0000, size: 0x1_0000 }]);
}

#[test]
fn reports_are_only_added_to() {
    let mut g = game_with_chain();
    let mut chain = LiveryChain::new(fh6());
    let mut seen = vec![chain.notices().clone()];
    while let Some(request) = chain.request() {
        let reply = g.perform(request);
        chain.answer(reply);
        seen.push(chain.notices().clone());
    }
    assert!(seen.iter().all(|s| chain.notices().starts_with(s)));

    let mut g = game_with_chain();
    let mut diagnosis = Diagnosis::new(fh6(), 7);
    let mut seen = vec![diagnosis.notices().clone()];
    while let Some(request) = diagnosis.request() {
        let reply = g.perform(request);
        diagnosis.answer(reply);
        seen.push(diagnosis.notices().clone());
    }
    assert!(seen.iter().all(|s| diagnosis.notices().starts_with(s)));
    assert_eq!(diagnosis.profile().key, "fh6");

    let mut g = game_with_group(600, 599);
    let mut locator = Locator::new(fh6(), 7, 600);
    let mut seen = vec![locator.notices().clone()];
    while let Some(request) = locator.request() {
        let reply = g.perform(request);
        locator.answer(reply);
        seen.push(locator.notices().clone());
    }
    assert!(seen.iter().all(|s| locator.notices().starts_with(s)));
    assert_eq!(locator.profile().key, "fh6");

    let mut g = game_with_table(100);
    g.refuse_after = 20;
    let text = r#"{"shapes":[{"type":8,"data":[0,0,10,10],"color":[1,2,3,255]}]}"#;
    let mut import = start(text, &manual(100));
    let mut seen = vec![import.notices().clone()];
    while let Some(request) = import.request() {
        let reply = g.perform(request);
        import.answer(reply);
        seen.push(import.notices().clone());
    }
    assert_eq!(import.result(), Err(ImportError::WriteFailed));
    assert!(seen.iter().all(|s| import.notices().starts_with(s)));
    assert_eq!(import.profile().key, "fh6");
    assert_eq!(g.writes.len(), 20);
}

#[test]
fn an_address_with_another_count_is_rejected() {
    let mut g = game_with_table(120);
    let i = run_import(&mut g, start(GEOMETRY, &manual(121)));
    assert_eq!(i.result(), Err(ImportError::CountMismatch));
    assert!(g.writes.is_empty());
    assert_eq!(
        i.notices()[1..],
        [Notice::ManualShortCount { address: 0x8_0000, count: 120 }]
    );
    assert!(ImportError::CountMismatch.text().starts_with("The located address does not hold"));

    let mut g = game_with_table(120);
    g.put(0x8_0000, &[120, 0, 1, 0]);
    let i = run_import(&mut g, start(GEOMETRY, &manual(120)));
    assert_eq!(i.result(), Ok(()));

    let mut g = game_with_table(120);
    g.put(0x8_0000, &[120, 0, 1, 0]);
    let mut a = manual(120);
    a.game = Some("fh5".to_string());
    a.pid = Some(9);
    let i = run_import(&mut g, start(GEOMETRY, &a));
    assert_eq!(i.result(), Err(ImportError::CountMismatch));
    assert!(g.writes.is_empty());
}

const OTHER_TABLE: u64 = 0x5000_0000;
const PLAIN_LAYER: u64 = 0x6000_0000;

/// Puts a second group into the region of the first, which then points to `first`.
fn add_group(g: &mut Game, count: u16, first: u64, second: u64) {
    let mut groups = vec![0u8; 0x400];
    for (at, table) in [(0x100, first), (0x280, second)] {
        groups[at + 0x5A..at + 0x5C].copy_from_slice(&count.to_le_bytes());
        groups[at + 0x78..at + 0x80].copy_from_slice(&table.to_le_bytes());
    }
    g.memory[0] = (GROUP, groups);
    g.regions[0].size = 0x400;
}

#[test]
fn the_best_group_wins() {
    let mut g = game_with_group(600, 600);
    add_group(&mut g, 600, TABLE, TABLE);
    let tied = locate(&mut g, 600).session().unwrap();
    assert_eq!((tied.group_address, tied.score), (GROUP + 0x100, 444));

    // A table whose first layer has no known shape scores less.
    let mut g = game_with_group(600, 600);
    add_group(&mut g, 600, OTHER_TABLE, TABLE);
    let mut table = g.read(TABLE, 600 * 8);
    table[..8].copy_from_slice(&PLAIN_LAYER.to_le_bytes());
    let mut layer = g.read(LAYERS, 0x100);
    layer[0x7A] = 50;
    g.regions.push(Region { base: OTHER_TABLE, size: table.len() as u64 });
    g.regions.push(Region { base: PLAIN_LAYER, size: layer.len() as u64 });
    g.put(OTHER_TABLE, &table);
    g.put(PLAIN_LAYER, &layer);
    let l = locate(&mut g, 600);
    let best = l.session().unwrap();
    assert_eq!((best.group_address, best.score), (GROUP + 0x280, 444));
    assert!(l.notices().contains(&Notice::LayoutCandidate {
        group: GROUP + 0x100,
        count: GROUP + 0x15A,
        table: OTHER_TABLE,
        validated: 599,
        layers: 600,
    }));

    add_group(&mut g, 600, OTHER_TABLE, 0);
    let only = locate(&mut g, 600).session().unwrap();
    assert_eq!(only.group_address, GROUP + 0x100);
    assert_eq!(only.score, 443);
}

#[test]
fn a_session_is_written_where_one_was_found() {
    let mut g = game_with_group(600, 600);
    let l = locate(&mut g, 600);
    let text = session_text(&l, &process_name(7)).unwrap();
    let read = load_session(&text).unwrap();
    assert_eq!(read, l.session().unwrap());

    let mut g = game_with_group(600, 596);
    let l = locate(&mut g, 600);
    assert_eq!(session_text(&l, &process_name(7)), None);
}

#[test]
fn a_chain_that_an_import_takes_is_valid() {
    let mut g = game_with_chain();
    let c = run_chain(&mut g);
    assert!(c.livery().is_some());
    assert!(run_diagnosis(&mut g).valid());
}

#[test]
fn walks_list_the_map() {
    let walk = |private_only: bool| {
        let mut w = RegionWalk::new(private_only);
        while let Some(a) = w.query() {
            let step = a / 0x1_0000;
            let base = step * 0x1_0000;
            let end = if step < 6 { base + 0x1_0000 } else { 0x7FFF_FFFF_FFFF };
            w.answer(Some(MemoryInfo {
                base,
                size: end - base,
                state: 0x1000,
                protect: if step < 6 { 0x04 } else { 0x01 },
                kind: if step % 2 == 1 { 0x20000 } else { 0x40000 },
            }));
        }
        w.regions().clone()
    };
    let bases = |r: Vec<Region>| r.iter().map(|r| r.base / 0x1_0000).collect::<Vec<u64>>();
    assert_eq!(bases(walk(false)), vec![1, 2, 3, 4, 5]);
    assert_eq!(bases(walk(true)), vec![1, 3, 5]);
}

#[test]
fn layers_that_are_repeated_count_once() {
    // Too few entries of the first ones are distinct.
    let mut g = game_with_group(600, 600);
    let one = LAYERS.to_le_bytes();
    for i in 0..64 {
        g.put(TABLE + i * 8, &one);
    }
    assert_eq!(locate(&mut g, 600).session(), None);

    // The first entries do, and one layer less than the template has is distinct.
    let mut g = game_with_group(600, 600);
    g.put(TABLE + 100 * 8, &one);
    assert_eq!(locate(&mut g, 600).session(), None);

    // Half of the first entries do not look like a layer.
    let mut g = game_with_group(600, 600);
    for i in 0..40 {
        let layer = LAYERS + i * 0x100;
        g.put(layer + 0x18, &f32::NAN.to_le_bytes());
        g.put(layer + 0x28, &f32::NAN.to_le_bytes());
        g.put(layer + 0x7A, &[50]);
    }
    assert_eq!(locate(&mut g, 600).session(), None);
}
