use cost::graph_iterator::EdgeMapper;
use cost::graph_iterator::EdgeVisitor;
use cost::twitter_parser::ReaderMapper;

struct Degrees {
    out: Vec<f32>,
}

impl EdgeVisitor for Degrees {
    type State = ();

    fn state(&self) {}

    fn inv(&self) -> bool {
        true
    }

    fn accepts(_s: (), _x: u32, _y: u32) -> bool {
        true
    }

    fn step(_s: (), _x: u32, _y: u32) {}

    fn visit(&mut self, x: u32, _y: u32) {
        self.out[x as usize] += 1f32;
    }
}

#[test]
fn a_visitor_of_the_caller_sees_each_edge_once() {
    let graph = ReaderMapper::new(b"0 1\n0 2\n2 0\n").unwrap();
    let mut degrees = Degrees { out: vec![0f32; 3] };
    graph.map_edges(&mut degrees);
    assert_eq!(degrees.out, vec![2f32, 0f32, 1f32]);
    graph.map_edges(&mut degrees);
    assert_eq!(degrees.out, vec![4f32, 0f32, 2f32]);
}
