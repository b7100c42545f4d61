use scalargrad::entity::{AIEntity, ControlledEntity, Entity, Move};
use scalargrad::graph::ValueTree;
use scalargrad::map::{generate_map, Cell, MapGenerator, StaticMapGenerator, SIZE};
use scalargrad::model::Model;
use scalargrad::mutation::MutationStrategy;
use scalargrad::nn::InitSource;

fn addf(x: u64, y: u64) -> u64 {
    (f64::from_bits(x) + f64::from_bits(y)).to_bits()
}

fn mulf(x: u64, y: u64) -> u64 {
    (f64::from_bits(x) * f64::from_bits(y)).to_bits()
}

fn tanhf(x: u64) -> u64 {
    f64::from_bits(x).tanh().to_bits()
}

fn model_words() -> Vec<u64> {
    (0..148).map(|i| ((((i * 37) % 19) as f64) / 19.0 - 0.5).to_bits()).collect()
}

#[test]
fn random_model_has_maze_shape() {
    let mut source = InitSource::new(model_words());
    let mut model = Model::random(&mut source);
    assert_eq!(model.mlp.parameters().len(), 148);
    let inputs: Vec<u64> = vec![
        0.0f64.to_bits(),
        0.25f64.to_bits(),
        (-0.5f64).to_bits(),
        1.0f64.to_bits(),
    ];
    let out = model.forward(&inputs, &addf, &mulf, &tanhf);
    assert_eq!(out.len(), 4);
    for w in &out {
        let v = f64::from_bits(*w);
        assert!(v > -1.0 && v < 1.0);
    }
}

#[test]
fn model_forward_is_deterministic() {
    let mut source = InitSource::new(model_words());
    let mut model = Model::random(&mut source);
    let inputs: Vec<u64> = vec![
        0.5f64.to_bits(),
        0.5f64.to_bits(),
        0.5f64.to_bits(),
        0.5f64.to_bits(),
    ];
    let out1 = model.forward(&inputs, &addf, &mulf, &tanhf);
    let out2 = model.forward(&inputs, &addf, &mulf, &tanhf);
    assert_eq!(out1, out2);
}

#[test]
fn model_from_is_an_independent_copy() {
    let mut source = InitSource::new(model_words());
    let original = Model::random(&mut source);
    let mut copy = Model::from(&original);
    let first_param = copy.mlp.parameters()[0];
    copy.tree.set_data(first_param, 123.0f64.to_bits());
    assert_eq!(f64::from_bits(copy.tree.data(first_param)), 123.0);
    assert!(f64::from_bits(original.tree.data(first_param)) != 123.0);
}

struct NudgeStrategy {
    delta: f64,
}

impl MutationStrategy for NudgeStrategy {
    fn mutate(&mut self, tree: &mut ValueTree, params: &Vec<usize>) {
        for p in params {
            let d = f64::from_bits(tree.data(*p));
            tree.set_data(*p, (d + self.delta).to_bits());
        }
    }
}

#[test]
fn mutate_perturbs_the_copy_and_spares_the_original() {
    let mut source = InitSource::new(model_words());
    let original = Model::random(&mut source);
    let mut strategy = NudgeStrategy { delta: 0.25 };
    let mutated = Model::mutate(&original, &mut strategy);
    let params = original.mlp.parameters();
    for p in &params {
        let before = f64::from_bits(original.tree.data(*p));
        let after = f64::from_bits(mutated.tree.data(*p));
        assert!((after - (before + 0.25)).abs() < 1e-12);
    }
}

#[test]
fn static_map_has_walled_border_and_goal() {
    let m = generate_map();
    assert_eq!(m.cells.len(), SIZE);
    for y in 0..SIZE {
        assert_eq!(m.cells[y].len(), SIZE);
        for x in 0..SIZE {
            let cell = m.cells[y][x];
            if x == 0 || y == 0 || x == SIZE - 1 || y == SIZE - 1 {
                assert!(matches!(cell, Cell::Wall));
            } else if x == 7 && y == 8 {
                assert!(matches!(cell, Cell::Goal));
            } else {
                assert!(matches!(cell, Cell::Empty));
            }
        }
    }
    assert_eq!(m.goal, (7, 8));
    assert_eq!(m.entity.position, (1, 1));
}

#[test]
fn static_generator_builds_the_same_map() {
    let generated = StaticMapGenerator.generate();
    let direct = generate_map();
    for y in 0..SIZE {
        for x in 0..SIZE {
            assert_eq!(generated.cells[y][x], direct.cells[y][x]);
        }
    }
}

#[test]
fn entity_keeps_its_position() {
    let e = Entity::new((3, 4));
    assert_eq!(e.position, (3, 4));
}

#[test]
fn move_of_index_covers_all_outputs() {
    assert!(matches!(Move::of_index(0), Move::Up));
    assert!(matches!(Move::of_index(1), Move::Down));
    assert!(matches!(Move::of_index(2), Move::Left));
    assert!(matches!(Move::of_index(3), Move::Right));
}

struct FixedPilot(Move);

impl ControlledEntity for FixedPilot {
    fn get_move(&mut self, _map: &scalargrad::map::Maze) -> Option<Move> {
        Some(self.0)
    }
}

#[test]
fn controlled_entity_trait_is_usable_from_outside() {
    let maze = generate_map();
    let mut pilot = FixedPilot(Move::Left);
    assert!(matches!(pilot.get_move(&maze), Some(Move::Left)));
}

#[test]
fn ai_entity_wraps_a_model() {
    let mut source = InitSource::new(model_words());
    let model = Model::random(&mut source);
    let entity = AIEntity::new(model);
    assert_eq!(entity.0.mlp.parameters().len(), 148);
}
