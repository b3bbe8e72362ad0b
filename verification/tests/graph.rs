use rustradio::block::{Block, BlockRet, ConvertBlock};
use rustradio::graph::{Graph, Sweep};
use rustradio::stream::{Element, Ports, StreamType};
use rustradio::{Error, Float, StreamReader, StreamWriter};
use std::cell::RefCell;
use std::rc::Rc;

/// Writes the numbers from a counter on, as many as fit, to its first output.
struct Counter {
    next: u32,
    limit: u32,
}

impl Block for Counter {
    fn block_name(&self) -> &'static str {
        "Counter"
    }
    fn work(&mut self, w: &mut Ports) -> Result<BlockRet, Error> {
        if self.next >= self.limit {
            return Ok(BlockRet::EOF);
        }
        let out = w.output::<u32>(0)?;
        let mut n = 0;
        while self.next < self.limit && StreamWriter::available(out) > 0 {
            out.write(&[self.next])?;
            self.next += 1;
            n += 1;
        }
        Ok(if n > 0 { BlockRet::Progress } else { BlockRet::Noop })
    }
}

/// Moves all of its first input to a vector that the test can see.
struct Collect {
    seen: Rc<RefCell<Vec<u32>>>,
}

impl Block for Collect {
    fn block_name(&self) -> &'static str {
        "Collect"
    }
    fn work(&mut self, r: &mut Ports) -> Result<BlockRet, Error> {
        let input = r.input::<u32>(0)?;
        let n = StreamReader::available(input);
        self.seen.borrow_mut().extend_from_slice(input.buffer());
        input.consume(n)?;
        Ok(if n > 0 { BlockRet::Progress } else { BlockRet::Noop })
    }
}

/// Notes that it was called, and with how many streams; fails when told to.
struct Probe {
    name: u32,
    log: Rc<RefCell<Vec<(u32, usize, usize)>>>,
    fail: Option<Error>,
}

impl Block for Probe {
    fn block_name(&self) -> &'static str {
        "Probe"
    }
    fn work(&mut self, p: &mut Ports) -> Result<BlockRet, Error> {
        self.log.borrow_mut().push((self.name, p.inputs(), p.outputs()));
        match self.fail {
            Some(e) => Err(e),
            None => Ok(BlockRet::Noop),
        }
    }
}

fn probe(name: u32, log: &Rc<RefCell<Vec<(u32, usize, usize)>>>, fail: Option<Error>) -> Box<dyn Block> {
    Box::new(Probe { name, log: log.clone(), fail })
}

#[test]
fn empty_graph_runs() {
    let mut g: Graph<Box<dyn Block>> = Graph::new();
    assert_eq!(g.run(), Ok(()));
    let mut d: Graph<Box<dyn Block>> = Graph::default();
    assert_eq!(d.run(), Ok(()));
    assert!(g.stream(0).is_none());
    assert!(g.stream_mut(0).is_none());
}

#[test]
fn handles_count_up() {
    let log = Rc::new(RefCell::new(Vec::new()));
    let mut g: Graph<Box<dyn Block>> = Graph::new();
    assert_eq!(g.add(probe(0, &log, None)), 0);
    assert_eq!(g.add(probe(1, &log, None)), 1);
    assert_eq!(g.add(probe(2, &log, None)), 2);
    assert_eq!(g.connect(StreamType::new_u32(4), 0, 0, 1, 0), Ok(0));
    assert_eq!(g.connect(StreamType::new_float(4), 1, 0, 2, 0), Ok(1));
    assert_eq!(g.connect(StreamType::new_complex(4), 0, 1, 2, 1), Ok(2));
    assert!(g.stream(2).is_some());
    assert!(g.stream(3).is_none());
    assert!(<Float as Element>::typed(g.stream(1).unwrap()).is_some());
}

#[test]
fn connect_rejects_a_port_wired_twice() {
    let mut g: Graph<Box<dyn Block>> = Graph::new();
    assert_eq!(g.connect(StreamType::new_u32(4), 0, 0, 1, 0), Ok(0));
    assert_eq!(g.connect(StreamType::new_u32(4), 0, 0, 2, 0), Err(Error::Configuration));
    assert_eq!(g.connect(StreamType::new_u32(4), 2, 0, 1, 0), Err(Error::Configuration));
    assert!(g.stream(1).is_none());
    assert_eq!(g.connect(StreamType::new_u32(4), 0, 1, 1, 1), Ok(1));
    assert_eq!(g.connect(StreamType::new_u32(4), 1, 0, 0, 0), Ok(2));
}

#[test]
fn connect_wires_a_block_to_itself() {
    let mut g: Graph<Box<dyn Block>> = Graph::new();
    assert_eq!(g.connect(StreamType::new_u32(4), 3, 0, 3, 1), Ok(0));
    assert_eq!(g.connect(StreamType::new_u32(4), 3, 0, 3, 0), Err(Error::Configuration));
    assert_eq!(g.connect(StreamType::new_u32(4), 3, 1, 3, 1), Err(Error::Configuration));
    assert_eq!(g.connect(StreamType::new_u32(4), 3, 1, 3, 0), Ok(1));
    assert!(g.stream(1).is_some());
    assert!(g.stream(2).is_none());
}

/// Doubles the last element of the one stream that it both reads and writes.
struct Feedback;

impl Block for Feedback {
    fn block_name(&self) -> &'static str {
        "Feedback"
    }
    fn work(&mut self, p: &mut Ports) -> Result<BlockRet, Error> {
        let last = match p.input::<u32>(0)?.buffer().last() {
            Some(x) => *x,
            None => return Ok(BlockRet::Noop),
        };
        p.output::<u32>(0)?.write(&[2 * last])?;
        Ok(BlockRet::Progress)
    }
}

#[test]
fn block_wired_to_itself_sees_one_stream_at_both_sides() {
    let log = Rc::new(RefCell::new(Vec::new()));
    let mut g: Graph<Box<dyn Block>> = Graph::new();
    let fb = g.add(Box::new(Feedback));
    g.add(probe(1, &log, None));
    let s = g.connect(StreamType::new_u32(4), fb, 0, fb, 0).unwrap();
    assert_eq!(g.run(), Ok(()));
    assert_eq!(*log.borrow(), vec![(1, 0, 0)]);
    <u32 as Element>::typed_mut(g.stream_mut(s).unwrap()).unwrap().write(&[3]).unwrap();
    assert_eq!(g.sweep(), Ok(Sweep { progress: 1, noop: 1, eof: 0 }));
    assert_eq!(g.run(), Ok(()));
    let held = <u32 as Element>::typed(g.stream(s).unwrap()).unwrap();
    assert_eq!(held.buffer(), &[3, 6, 12]);
    assert_eq!(g.run(), Ok(()));
    assert_eq!(g.run(), Err(Error::Capacity));
    let held = <u32 as Element>::typed(g.stream(s).unwrap()).unwrap();
    assert_eq!(held.buffer(), &[3, 6, 12, 24]);
    let mut mapped: Graph<Box<dyn Block>> = Graph::new();
    let m = mapped.add(Box::new(ConvertBlock::new(|x: u32| x + 1)));
    mapped.connect(StreamType::new_u32(4), m, 0, m, 0).unwrap();
    assert_eq!(mapped.run(), Err(Error::Configuration));
}

#[test]
fn graph_of_one_block_type_needs_no_box() {
    let inc: fn(u32) -> u32 = |x| x + 1;
    let mut g = Graph::new();
    let a = g.add(ConvertBlock::new(inc));
    let b = g.add(ConvertBlock::new(inc));
    let first = g.connect(StreamType::new_u32(4), 9, 0, a, 0).unwrap();
    g.connect(StreamType::new_u32(4), a, 0, b, 0).unwrap();
    let last = g.connect(StreamType::new_u32(4), b, 0, 9, 0).unwrap();
    <u32 as Element>::typed_mut(g.stream_mut(first).unwrap()).unwrap().write(&[1, 2]).unwrap();
    assert_eq!(g.sweep(), Ok(Sweep { progress: 2, noop: 0, eof: 0 }));
    assert_eq!(<u32 as Element>::typed(g.stream(last).unwrap()).unwrap().buffer(), &[3, 4]);
}

#[test]
fn sweep_visits_every_block_once_in_order() {
    let log = Rc::new(RefCell::new(Vec::new()));
    let mut g: Graph<Box<dyn Block>> = Graph::new();
    for i in 0..4 {
        g.add(probe(i, &log, None));
    }
    g.connect(StreamType::new_u32(4), 0, 0, 1, 0).unwrap();
    g.connect(StreamType::new_u32(4), 0, 1, 2, 0).unwrap();
    g.connect(StreamType::new_u32(4), 1, 0, 2, 1).unwrap();
    assert_eq!(g.run(), Ok(()));
    assert_eq!(*log.borrow(), vec![(0, 0, 2), (1, 1, 1), (2, 2, 0), (3, 0, 0)]);
    assert_eq!(g.run(), Ok(()));
    assert_eq!(log.borrow().len(), 8);
}

#[test]
fn sweep_stops_at_the_first_error() {
    let log = Rc::new(RefCell::new(Vec::new()));
    let mut g: Graph<Box<dyn Block>> = Graph::new();
    g.add(probe(0, &log, None));
    g.add(probe(1, &log, Some(Error::Overrun)));
    g.add(probe(2, &log, Some(Error::Capacity)));
    g.connect(StreamType::new_u32(4), 0, 0, 1, 0).unwrap();
    assert_eq!(g.run(), Err(Error::Overrun));
    assert_eq!(*log.borrow(), vec![(0, 0, 1), (1, 1, 0)]);
    assert_eq!(g.stream(0).unwrap().available(), 0);
    assert!(<u32 as Element>::typed(g.stream(0).unwrap()).is_some());
}

#[test]
fn data_flows_along_the_edges() {
    let seen = Rc::new(RefCell::new(Vec::new()));
    let mut g: Graph<Box<dyn Block>> = Graph::new();
    let src = g.add(Box::new(Counter { next: 0, limit: 10 }));
    let inc = g.add(Box::new(ConvertBlock::new(|x: u32| x + 100)));
    let sink = g.add(Box::new(Collect { seen: seen.clone() }));
    g.connect(StreamType::new_u32(4), src, 0, inc, 0).unwrap();
    g.connect(StreamType::new_u32(4), inc, 0, sink, 0).unwrap();
    assert_eq!(g.run(), Ok(()));
    assert_eq!(*seen.borrow(), vec![100, 101, 102, 103]);
    assert_eq!(g.run(), Ok(()));
    assert_eq!(g.run(), Ok(()));
    assert_eq!(g.run(), Ok(()));
    assert_eq!(*seen.borrow(), (100..110).collect::<Vec<u32>>());
    assert_eq!(g.stream(0).unwrap().available(), 0);
    assert_eq!(g.stream(1).unwrap().available(), 0);
}

#[test]
fn views_follow_connection_order_not_port_numbers() {
    let mut g: Graph<Box<dyn Block>> = Graph::new();
    let inc = g.add(Box::new(ConvertBlock::new(|x: u32| Float::from_bits(x))));
    g.connect(StreamType::new_u32(4), 7, 0, inc, 5).unwrap();
    g.connect(StreamType::new_complex(4), 8, 0, inc, 0).unwrap();
    g.connect(StreamType::new_float(4), inc, 9, 7, 0).unwrap();
    <u32 as Element>::typed_mut(g.stream_mut(0).unwrap()).unwrap().write(&[1, 2]).unwrap();
    assert_eq!(g.run(), Ok(()));
    assert_eq!(g.stream(0).unwrap().available(), 0);
    assert_eq!(g.stream(2).unwrap().available(), 2);
}

#[test]
fn mapping_block_in_a_graph_signals_progress() {
    let mut g: Graph<Box<dyn Block>> = Graph::new();
    let map = g.add(Box::new(ConvertBlock::new(|x: u32| 2 * x)));
    let upstream = g.connect(StreamType::new_u32(8), 1, 0, map, 0).unwrap();
    let downstream = g.connect(StreamType::new_u32(8), map, 0, 2, 0).unwrap();
    assert_eq!(g.run(), Ok(()));
    assert_eq!(g.stream(downstream).unwrap().available(), 0);
    <u32 as Element>::typed_mut(g.stream_mut(upstream).unwrap())
        .unwrap()
        .write(&[1, 2, 3])
        .unwrap();
    assert_eq!(g.run(), Ok(()));
    assert_eq!(g.stream(upstream).unwrap().available(), 0);
    let out = <u32 as Element>::typed(g.stream(downstream).unwrap()).unwrap();
    assert_eq!(out.buffer(), &[2, 4, 6]);
}

#[test]
fn block_error_leaves_the_streams_in_the_graph() {
    let mut g: Graph<Box<dyn Block>> = Graph::new();
    let map = g.add(Box::new(ConvertBlock::new(|x: u32| 2 * x)));
    let upstream = g.connect(StreamType::new_u32(8), 1, 0, map, 0).unwrap();
    let downstream = g.connect(StreamType::new_u32(2), map, 0, 2, 0).unwrap();
    <u32 as Element>::typed_mut(g.stream_mut(upstream).unwrap())
        .unwrap()
        .write(&[1, 2, 3])
        .unwrap();
    assert_eq!(g.run(), Err(Error::Capacity));
    assert_eq!(g.stream(upstream).unwrap().available(), 3);
    assert_eq!(g.stream(downstream).unwrap().available(), 0);
    assert_eq!(
        <u32 as Element>::typed(g.stream(downstream).unwrap()).unwrap().max_samples(),
        2
    );
    let wrong = g.add(Box::new(ConvertBlock::new(|x: Float| x)));
    assert_eq!(wrong, 1);
    assert_eq!(g.run(), Err(Error::Capacity));
}

#[test]
fn sweep_counts_what_the_blocks_return() {
    let seen = Rc::new(RefCell::new(Vec::new()));
    let mut g: Graph<Box<dyn Block>> = Graph::new();
    let src = g.add(Box::new(Counter { next: 0, limit: 3 }));
    let inc = g.add(Box::new(ConvertBlock::new(|x: u32| x + 1)));
    let sink = g.add(Box::new(Collect { seen: seen.clone() }));
    g.connect(StreamType::new_u32(8), src, 0, inc, 0).unwrap();
    g.connect(StreamType::new_u32(8), inc, 0, sink, 0).unwrap();
    assert_eq!(g.sweep(), Ok(Sweep { progress: 3, noop: 0, eof: 0 }));
    assert_eq!(g.sweep(), Ok(Sweep { progress: 0, noop: 2, eof: 1 }));
    assert_eq!(*seen.borrow(), vec![1, 2, 3]);
    assert_eq!(Graph::<Box<dyn Block>>::new().sweep(), Ok(Sweep { progress: 0, noop: 0, eof: 0 }));
}

#[test]
fn run_to_completion_drains_a_finite_source() {
    let seen = Rc::new(RefCell::new(Vec::new()));
    let mut g: Graph<Box<dyn Block>> = Graph::new();
    let src = g.add(Box::new(Counter { next: 0, limit: 10 }));
    let inc = g.add(Box::new(ConvertBlock::new(|x: u32| x * 10)));
    let sink = g.add(Box::new(Collect { seen: seen.clone() }));
    g.connect(StreamType::new_u32(4), src, 0, inc, 0).unwrap();
    g.connect(StreamType::new_u32(4), inc, 0, sink, 0).unwrap();
    assert_eq!(g.run_to_completion(2), Ok(None));
    assert_eq!(seen.borrow().len(), 8);
    assert_eq!(g.run_to_completion(100), Ok(Some(2)));
    assert_eq!(*seen.borrow(), (0..10).map(|x| x * 10).collect::<Vec<u32>>());
    assert_eq!(g.run_to_completion(100), Ok(Some(1)));
    assert_eq!(g.run_to_completion(0), Ok(None));
}

#[test]
fn run_to_completion_gives_the_first_error() {
    let log = Rc::new(RefCell::new(Vec::new()));
    let mut g: Graph<Box<dyn Block>> = Graph::new();
    g.add(probe(0, &log, None));
    g.add(probe(1, &log, Some(Error::Decode)));
    assert_eq!(g.run_to_completion(5), Err(Error::Decode));
    assert_eq!(log.borrow().len(), 2);
    assert_eq!(Graph::<Box<dyn Block>>::new().run_to_completion(5), Ok(Some(1)));
}

#[test]
fn tally_records_one_block_at_a_time() {
    let t = Sweep::new();
    assert_eq!(t, Sweep { progress: 0, noop: 0, eof: 0 });
    let t = t.record(BlockRet::Progress).record(BlockRet::EOF).record(BlockRet::Progress);
    assert_eq!(t, Sweep { progress: 2, noop: 0, eof: 1 });
    assert_eq!(t.record(BlockRet::Noop), Sweep { progress: 2, noop: 1, eof: 1 });
}
