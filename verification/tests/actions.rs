use cost::graph_iterator::{EdgeAction, EdgeMapper, ReaderMapper};

struct Degrees {
    out: Vec<u32>,
}

impl EdgeAction for Degrees {
    type State = ();

    fn state(&self) {}

    fn accepts(_state: (), _x: u32, _y: u32) -> bool {
        true
    }

    fn step(_state: (), _x: u32, _y: u32) {}

    fn apply(&mut self, x: u32, _y: u32) {
        self.out[x as usize] += 1;
    }
}

#[test]
fn an_action_of_a_caller_sees_every_edge() {
    let graph = ReaderMapper::new(b"0 1\n0 2\n2 1\n");
    let mut degrees = Degrees { out: vec![0; 3] };
    graph.map_edges(&mut degrees);
    assert_eq!(degrees.out, vec![2, 0, 1]);
    graph.map_edges(&mut degrees);
    assert_eq!(degrees.out, vec![4, 0, 2]);
}
