use bfrs::arena::Arena;
use bfrs::ast::Ast;
use bfrs::block::{Block, BlockBuilder, Effect};
use bfrs::cfg::{Cfg, Sequence};
use bfrs::egraph::{Graph, NodeId, Pass};
use bfrs::node::{BlockId, InputId, Node, Offset};
use std::collections::HashMap;
use bfrs::optimize::add_assign::mod_inverse;
use bfrs::parse::ParseError;

fn parse(src: &str) -> (Graph, Cfg) {
    let mut g = Graph::new();
    let cfg = g.parse(src.as_bytes()).unwrap();
    (g, cfg)
}

fn pretty(src: &str) -> String {
    let (g, cfg) = parse(src);
    assert!(cfg.copies_are_local(&g));
    cfg.pretty(&g)
}

fn optimize(src: &str) -> String {
    let (mut g, mut cfg) = parse(src);
    cfg.opt_closed_form_add(&mut g);
    cfg.opt_peel(&mut g);
    assert!(cfg.copies_are_local(&g));
    cfg.pretty(&g)
}

#[test]
fn ast_parse() {
    assert_eq!(
        Ast::parse(b"+[+[[[-][+]-[+]]][-]]+"),
        Some(vec![
            Ast::Inc,
            Ast::Loop(vec![
                Ast::Inc,
                Ast::Loop(vec![Ast::Loop(vec![
                    Ast::Loop(vec![Ast::Dec]),
                    Ast::Loop(vec![Ast::Inc]),
                    Ast::Dec,
                    Ast::Loop(vec![Ast::Inc]),
                ])]),
                Ast::Loop(vec![Ast::Dec]),
            ]),
            Ast::Inc,
        ]),
    );
    assert_eq!(Ast::parse(b"["), None);
    assert_eq!(Ast::parse(b"[["), None);
    assert_eq!(Ast::parse(b"]"), None);
}

#[test]
fn ast_parse_skips_comments() {
    assert_eq!(
        Ast::parse(b"a > b < c , . [x]"),
        Some(vec![Ast::Right, Ast::Left, Ast::Input, Ast::Output, Ast::Loop(vec![])]),
    );
    assert_eq!(Ast::parse(b""), Some(vec![]));
    assert_eq!(Ast::parse(b"[]]["), None);
    assert_eq!(Ast::parse(b"[]["), None);
}

#[test]
fn graph_parse_errors() {
    let mut g = Graph::new();
    assert!(matches!(g.parse(b"]"), Err(ParseError::UnopenedLoop)));
    assert!(matches!(g.parse(b"["), Err(ParseError::UnclosedLoop)));
    assert!(matches!(g.parse(b"[]]"), Err(ParseError::UnopenedLoop)));
    assert!(matches!(g.parse(b"[[]"), Err(ParseError::UnclosedLoop)));
    assert!(matches!(g.parse(b"]["), Err(ParseError::UnopenedLoop)));
    assert!(g.parse(b"[[]][]").is_ok());
}

#[test]
fn graph_parse_structure() {
    let (_, cfg) = parse("+");
    assert!(matches!(cfg, Cfg::Block(_)));
    let (_, cfg) = parse("[-]");
    assert!(matches!(cfg, Cfg::Loop(_)));
    let (_, cfg) = parse("+[-]+");
    match cfg {
        Cfg::Sequence(seq) => {
            let items = seq.as_slice();
            assert_eq!(items.len(), 3);
            assert!(matches!(items[0], Cfg::Block(_)));
            assert!(matches!(items[1], Cfg::Loop(_)));
            assert!(matches!(items[2], Cfg::Block(_)));
        }
        _ => panic!("expected a sequence"),
    }
}

#[test]
fn pretty_blocks() {
    assert_eq!(pretty("+"), "let c0 = p[0]\np[0] = c0 + 1\n");
    assert_eq!(pretty("-"), "let c0 = p[0]\np[0] = c0 - 1\n");
    assert_eq!(pretty(">"), "guard_shift(1)\nshift(1)\n");
    assert_eq!(pretty("<"), "guard_shift(-1)\nshift(-1)\n");
    assert_eq!(pretty(""), "");
}

#[test]
fn pretty_loop() {
    assert_eq!(
        pretty("[-]"),
        "while p[0] != 0 {\n    let c0 = p[0]\n    p[0] = c0 - 1\n}\n",
    );
}

#[test]
fn closed_form_clear() {
    assert_eq!(optimize("[-]"), "p[0] = 0\n");
}

#[test]
fn closed_form_keeps_even_loops() {
    assert_eq!(
        optimize("[--]"),
        "while p[0] != 0 {\n    let c0 = p[0]\n    p[0] = c0 - 2\n}\n",
    );
}

#[test]
fn peel_invariant_store() {
    let (mut g, mut cfg) = parse("[[-]-]");
    cfg.opt_closed_form_add(&mut g);
    cfg.opt_peel(&mut g);
    assert!(matches!(cfg, Cfg::Loop(_)));
    cfg.opt_peel(&mut g);
    assert!(matches!(cfg, Cfg::If(_)));
    assert_eq!(
        cfg.pretty(&g),
        "if p[0] != 0 {\n    {\n        p[0] = -1\n    }\n    while p[0] != 0 {\n    }\n}\n",
    );
}

#[test]
fn mod_inverse_values() {
    assert_eq!(mod_inverse(1), Some(1));
    assert_eq!(mod_inverse(3), Some(171));
    assert_eq!(mod_inverse(255), Some(255));
    assert_eq!(mod_inverse(0), None);
    assert_eq!(mod_inverse(2), None);
    for v in 0..=255u8 {
        match mod_inverse(v) {
            Some(x) => assert_eq!(v.wrapping_mul(x), 1),
            None => assert_eq!(v % 2, 0),
        }
    }
}

#[test]
fn egraph_insert_dedups() {
    let mut g = Graph::new();
    let a = Node::Const(5).insert(&mut g);
    let b = Node::Const(5).insert(&mut g);
    assert_eq!(a, b);
    assert_eq!(g.find(&Node::Const(5)), Some(a));
    assert_eq!(g.find(&Node::Const(6)), None);
    let c = Node::Const(6).insert(&mut g);
    assert_ne!(a, c);
    assert_eq!(*g.get(c).node(), Node::Const(6));
}

#[test]
fn egraph_folds_constants() {
    let mut g = Graph::new();
    let a = Node::Const(200).insert(&mut g);
    let b = Node::Const(100).insert(&mut g);
    let sum = Node::Add(a, b).insert(&mut g);
    assert_eq!(*g.get(sum).node(), Node::Const(44));
    let product = Node::Mul(a, b).insert(&mut g);
    assert_eq!(*g.get(product).node(), Node::Const(32));
}

#[test]
fn arena_insert_and_index() {
    let mut a = Arena::new();
    assert!(a.is_empty());
    let x = a.insert(10u32);
    let y = a.insert(20u32);
    let z = a.insert(30u32);
    assert_eq!(x.index(), 0);
    assert_eq!(y.index(), 1);
    assert_eq!(z.index(), 2);
    assert_eq!(a.len(), 3);
    assert_eq!(*a.index(1), 20);
    let values: Vec<u32> = a.iter().into_iter().copied().collect();
    assert_eq!(values, vec![10, 20, 30]);
}

#[test]
fn arena_spans_chunks() {
    let mut a = Arena::new();
    for i in 0..3000u32 {
        let id = a.insert(i);
        assert_eq!(id.index(), i as usize);
    }
    assert_eq!(a.len(), 3000);
    assert_eq!(*a.index(0), 0);
    assert_eq!(*a.index(1023), 1023);
    assert_eq!(*a.index(1024), 1024);
    assert_eq!(*a.index(2999), 2999);
}

#[test]
fn node_ids_compare() {
    assert_eq!(NodeId(3), NodeId(3));
    assert_ne!(NodeId(3), NodeId(4));
}

#[test]
fn pretty_io() {
    assert_eq!(pretty(","), "let in0 = input()\np[0] = in0\n");
    assert_eq!(pretty("."), "output([p[0]])\n");
    assert_eq!(pretty(",."), "let in0 = input()\noutput([in0])\np[0] = in0\n");
    assert_eq!(pretty(",,"), "let in0 = input()\nlet in1 = input()\np[0] = in1\n");
}

#[test]
fn pretty_sequence_braces() {
    assert_eq!(
        pretty("+[-]>"),
        "{\n    let c0 = p[0]\n    p[0] = c0 + 1\n}\nwhile p[0] != 0 {\n    let c0 = p[0]\n    p[0] = c0 - 1\n}\n{\n    guard_shift(1)\n    shift(1)\n}\n",
    );
}

#[test]
fn parse_message() {
    assert_eq!(ParseError::UnclosedLoop.message(), "unmatched [");
    assert_eq!(ParseError::UnopenedLoop.message(), "unmatched ]");
}

#[test]
fn pretty_copies_in_order() {
    assert_eq!(
        pretty("+>+<"),
        "guard_shift(1)\nlet c0 = p[0]\nlet c1 = p[1]\np[0] = c0 + 1\np[1] = c1 + 1\n",
    );
    assert_eq!(
        pretty("<+>+"),
        "guard_shift(-1)\nlet cn1 = p[-1]\nlet c0 = p[0]\np[-1] = cn1 + 1\np[0] = c0 + 1\n",
    );
}

#[test]
fn ast_clone_is_equal() {
    let ast = Ast::parse(b"+[->+<]").unwrap();
    let copy: Vec<Ast> = ast.iter().map(|a| a.clone()).collect();
    assert_eq!(copy, ast);
}

#[test]
fn sequence_push_joins_spliced_blocks() {
    let mut g = Graph::new();
    let mut s = Sequence::from_unflattened(vec![Cfg::Block(Block::new(BlockId(0)))]);
    let inner = Sequence::from_unflattened(vec![Cfg::Block(Block::new(BlockId(1)))]);
    s.push(Cfg::Sequence(inner), &mut g);
    assert_eq!(s.as_slice().len(), 1);
    assert!(matches!(&s.as_slice()[0], Cfg::Block(b) if b.id == BlockId(0)));
}

#[test]
fn sequence_flatten_joins_spliced_blocks() {
    let mut g = Graph::new();
    let inner = Sequence::from_unflattened(vec![Cfg::Block(Block::new(BlockId(1)))]);
    let mut s = Sequence::from_unflattened(vec![
        Cfg::Block(Block::new(BlockId(0))),
        Cfg::Sequence(inner),
    ]);
    s.flatten(&mut g);
    assert_eq!(s.as_slice().len(), 1);
    assert!(matches!(&s.as_slice()[0], Cfg::Block(b) if b.id == BlockId(0)));
}

#[test]
fn sequence_push_keeps_loops_apart() {
    let mut g = Graph::new();
    let mut s = Sequence::new();
    s.push(Cfg::Block(Block::new(BlockId(0))), &mut g);
    s.push(Cfg::Loop(Box::new(Cfg::empty())), &mut g);
    s.push(Cfg::Block(Block::new(BlockId(1))), &mut g);
    s.push(Cfg::Block(Block::new(BlockId(2))), &mut g);
    assert_eq!(s.len(), 3);
    assert!(matches!(&s.as_slice()[2], Cfg::Block(b) if b.id == BlockId(1)));
}

#[test]
fn egraph_replace_eclass_readout() {
    let mut g = Graph::new();
    let a = g.insert(Node::Const(1));
    let b = g.insert(Node::Const(2));
    let c = g.insert(Node::Const(3));
    a.replace(b, &mut g);
    assert_eq!(g.entry(c).eclass(), None);
    let e = g.entry(a).eclass().unwrap();
    assert_eq!(g.entry(b).eclass(), Some(e));
    assert_eq!(g.index_eclass(e).nodes(), &[b, a]);
    assert_eq!(g.index_eclass(e).canon(), b);
    assert_eq!(g.eclasses(), 1);
    b.replace(a, &mut g);
    let e = g.entry(a).eclass().unwrap();
    assert_eq!(g.index_eclass(e).canon(), a);
    assert_eq!(g.eclasses(), 1);
}

#[test]
fn egraph_dedup_keeps_creator_and_index() {
    let mut g = Graph::new();
    let a = g.insert(Node::Const(1));
    g.set_pass(Pass::Parse);
    let b = g.insert(Node::Const(2));
    let a2 = g.insert(Node::Const(1));
    assert_eq!(a.index(), 0);
    assert_eq!(b.index(), 1);
    assert_eq!(a2, a);
    assert_eq!(g.len(), 2);
    assert_eq!(g.entry(a).creator(), Pass::Unknown);
    assert_eq!(g.entry(b).creator(), Pass::Parse);
    assert_eq!(g.find(&Node::Const(2)), Some(b));
    assert_eq!(g.find(&Node::Const(9)), None);
}

#[test]
fn egraph_folds_wrapping_product() {
    let mut g = Graph::new();
    let z = Node::Const(16).insert(&mut g);
    let p = Node::Mul(z, z).insert(&mut g);
    assert_eq!(*g.get(p).node(), Node::Const(0));
}

#[test]
fn cfg_concat_adjacent_blocks_runs() {
    let mut g = Graph::new();
    let mut cfg = Cfg::Sequence(Sequence::from_unflattened(vec![
        Cfg::Block(Block::new(BlockId(0))),
        Cfg::Block(Block::new(BlockId(1))),
        Cfg::Loop(Box::new(Cfg::empty())),
        Cfg::Block(Block::new(BlockId(2))),
    ]));
    cfg.concat_adjacent_blocks(&mut g);
    match &cfg {
        Cfg::Sequence(s) => {
            assert_eq!(s.len(), 3);
            assert!(matches!(&s.as_slice()[0], Cfg::Block(b) if b.id == BlockId(0)));
            assert!(matches!(&s.as_slice()[1], Cfg::Loop(_)));
        }
        _ => panic!("expected a sequence"),
    }
    let mut single = Cfg::Sequence(Sequence::from_unflattened(vec![
        Cfg::Block(Block::new(BlockId(3))),
        Cfg::Block(Block::new(BlockId(4))),
    ]));
    single.concat_adjacent_blocks(&mut g);
    assert!(matches!(&single, Cfg::Block(b) if b.id == BlockId(3)));
}

#[test]
fn move_to_block_leaves() {
    let mut g = Graph::new();
    let c = g.insert(Node::Const(7));
    let x = g.insert(Node::Copy(Offset(2), BlockId(0)));
    let y = g.insert(Node::Copy(Offset(2), BlockId(5)));
    let to = Block::new(BlockId(1));
    assert_eq!(c.move_to_block(BlockId(0), &to, &mut g), c);
    assert_eq!(y.move_to_block(BlockId(0), &to, &mut g), y);
    let m = x.move_to_block(BlockId(0), &to, &mut g);
    assert_eq!(*g.get(m).node(), Node::Copy(Offset(2), BlockId(1)));
}

#[test]
fn node_insert_twice_same_id() {
    let mut g = Graph::new();
    let x = Node::Copy(Offset(0), BlockId(0)).insert(&mut g);
    let k = Node::Const(3).insert(&mut g);
    let a = Node::Add(x, k).insert(&mut g);
    let len = g.len();
    let b = Node::Add(x, k).insert(&mut g);
    assert_eq!(a, b);
    assert_eq!(g.len(), len);
    let m1 = Node::Mul(x, k).insert(&mut g);
    let m2 = Node::Mul(x, k).insert(&mut g);
    assert_eq!(m1, m2);
}

#[test]
fn node_insert_idealizes() {
    let mut g = Graph::new();
    let x = Node::Copy(Offset(0), BlockId(0)).insert(&mut g);
    let zero = Node::Const(0).insert(&mut g);
    let two = Node::Const(2).insert(&mut g);
    assert_eq!(Node::Add(x, zero).insert(&mut g), x);
    let d = Node::Add(x, x).insert(&mut g);
    assert!(matches!(*g.get(d).node(), Node::Mul(a, b) if a == x && b == two));
    let c = Node::Add(two, x).insert(&mut g);
    assert!(matches!(*g.get(c).node(), Node::Add(a, b) if a == x && b == two));
}

#[test]
fn builder_get_twice_same_id() {
    let mut g = Graph::new();
    let mut b = BlockBuilder::new();
    b.add(3);
    let id = b.get(&mut g);
    match *g.get(id).node() {
        Node::Add(c, k) => {
            assert_eq!(*g.get(c).node(), Node::Copy(Offset(0), BlockId(0)));
            assert_eq!(*g.get(k).node(), Node::Const(3));
        }
        _ => panic!("expected a sum"),
    }
    assert_eq!(b.get(&mut g), id);
}

#[test]
fn builder_outputs_merge() {
    let mut g = Graph::new();
    let mut b = BlockBuilder::new();
    b.output(&mut g);
    b.output(&mut g);
    let blk = b.finish(&mut g);
    assert_eq!(blk.effects.len(), 1);
    match &blk.effects[0] {
        Effect::Output(vs) => {
            assert_eq!(vs.len(), 2);
            assert_eq!(vs[0], vs[1]);
        }
        _ => panic!("expected an output"),
    }
}

#[test]
fn concat_cell_is_moved_node() {
    let mut g = Graph::new();
    let five = g.insert(Node::Const(5));
    let mut s = Block::new(BlockId(0));
    let s0 = s.clone();
    let o = Block {
        id: BlockId(1),
        memory: vec![Some(five)],
        effects: vec![],
        offset: Offset(0),
        min_offset: Offset(0),
        guarded_left: Offset(0),
        guarded_right: Offset(0),
    };
    s.concat(&o, &mut g);
    let moved = five.move_to_block(BlockId(1), &s0, &mut g);
    assert_eq!(s.get_cell(Offset(0)), Some(moved));
}

#[test]
fn clone_fresh_reads_fresh_inputs() {
    let mut g = Graph::new();
    let cfg = g.parse(b",>,").unwrap();
    let b = match cfg {
        Cfg::Block(b) => b,
        _ => panic!("expected a block"),
    };
    let c = b.clone_fresh(&mut g);
    assert_ne!(c.id, b.id);
    assert_eq!(c.effects.len(), b.effects.len());
    let mut seen = Vec::new();
    for (e, f) in b.effects.iter().zip(c.effects.iter()) {
        match (e, f) {
            (Effect::Input(x), Effect::Input(y)) => {
                assert_ne!(x, y);
                match (*g.get(*x).node(), *g.get(*y).node()) {
                    (Node::Input(i), Node::Input(j)) => {
                        assert!(i.0 < 2);
                        assert!(j.0 >= 2 && j.0 < 4);
                        seen.push(j);
                    }
                    _ => panic!("expected inputs"),
                }
            }
            (Effect::GuardShift(x), Effect::GuardShift(y)) => assert_eq!(x, y),
            _ => panic!("expected matching effects"),
        }
    }
    assert_eq!(seen.len(), 2);
    assert_ne!(seen[0], seen[1]);
}

#[test]
fn clone_in_block_shapes() {
    let mut g = Graph::new();
    let from = BlockId(0);
    let to = BlockId(1);
    let copy = g.insert(Node::Copy(Offset(3), from));
    let other = g.insert(Node::Copy(Offset(3), BlockId(7)));
    let k = g.insert(Node::Const(9));
    let input = g.fresh_input();
    let mut inputs: HashMap<u32, NodeId> = HashMap::new();
    let c = copy.clone_in_block(from, to, &mut inputs, &mut g);
    assert_eq!(*g.get(c).node(), Node::Copy(Offset(3), to));
    assert_eq!(other.clone_in_block(from, to, &mut inputs, &mut g), other);
    assert_eq!(k.clone_in_block(from, to, &mut inputs, &mut g), k);
    let i1 = input.clone_in_block(from, to, &mut inputs, &mut g);
    assert_eq!(*g.get(i1).node(), Node::Input(InputId(1)));
    assert_eq!(inputs.get(&0), Some(&i1));
    let i2 = input.clone_in_block(from, to, &mut inputs, &mut g);
    assert_eq!(i1, i2);
    let sum = g.insert(Node::Add(copy, input));
    let s1 = sum.clone_in_block(from, to, &mut inputs, &mut g);
    let len = g.len();
    let s2 = sum.clone_in_block(from, to, &mut inputs, &mut g);
    assert_eq!(s1, s2);
    assert_eq!(g.len(), len);
    match *g.get(s1).node() {
        Node::Add(a, b) => {
            assert_eq!(a, c);
            assert_eq!(b, i1);
        }
        _ => panic!("expected a sum"),
    }
}

#[test]
fn closed_form_move_cell_shape() {
    let (mut g, mut cfg) = parse("[->+<]");
    cfg.opt_closed_form_add(&mut g);
    let b = match &cfg {
        Cfg::If(body) => match &**body {
            Cfg::Block(b) => b.clone(),
            _ => panic!("expected a block"),
        },
        _ => panic!("expected an if"),
    };
    let c0 = b.get_cell(Offset(0)).unwrap();
    assert_eq!(*g.get(c0).node(), Node::Const(0));
    let c1 = b.get_cell(Offset(1)).unwrap();
    match *g.get(c1).node() {
        Node::Add(x, y) => {
            assert_eq!(*g.get(x).node(), Node::Copy(Offset(1), b.id));
            assert_eq!(*g.get(y).node(), Node::Copy(Offset(0), b.id));
        }
        _ => panic!("expected a sum"),
    }
}

#[test]
fn iter_memory_matches_get_cell() {
    let (_g, cfg) = parse(">+>>-<<<++");
    let b = match cfg {
        Cfg::Block(b) => b,
        _ => panic!("expected a block"),
    };
    let cells = b.iter_memory();
    for w in cells.windows(2) {
        assert!(w[0].0 .0 < w[1].0 .0);
    }
    for (o, n) in &cells {
        assert_eq!(b.get_cell(*o), Some(*n));
    }
    let mut listed = 0;
    for o in -3i64..6 {
        if b.get_cell(Offset(o)).is_some() {
            listed += 1;
            assert!(cells.iter().any(|(p, _)| p.0 == o));
        }
    }
    assert_eq!(listed, cells.len());
}

#[test]
fn concat_widens_guarded_range() {
    let mut g = Graph::new();
    let mut s = Block {
        id: BlockId(0),
        memory: vec![],
        effects: vec![],
        offset: Offset(3),
        min_offset: Offset(0),
        guarded_left: Offset(-1),
        guarded_right: Offset(2),
    };
    let o = Block {
        id: BlockId(1),
        memory: vec![],
        effects: vec![Effect::GuardShift(Offset(-2)), Effect::GuardShift(Offset(1))],
        offset: Offset(0),
        min_offset: Offset(0),
        guarded_left: Offset(-2),
        guarded_right: Offset(1),
    };
    s.concat(&o, &mut g);
    assert_eq!(s.guarded_left, Offset(-1));
    assert_eq!(s.guarded_right, Offset(4));
    assert_eq!(s.offset, Offset(3));
}

#[test]
fn parse_clear_loop_shape() {
    let (g, cfg) = parse("[-]");
    let b = match cfg {
        Cfg::Loop(body) => match *body {
            Cfg::Block(b) => b,
            _ => panic!("expected a block"),
        },
        _ => panic!("expected a loop"),
    };
    assert_eq!(b.offset, Offset(0));
    assert!(b.effects.is_empty());
    let c = b.get_cell(Offset(0)).unwrap();
    match *g.get(c).node() {
        Node::Add(x, k) => {
            assert_eq!(*g.get(x).node(), Node::Copy(Offset(0), b.id));
            assert_eq!(*g.get(k).node(), Node::Const(255));
        }
        _ => panic!("expected a sum"),
    }
}
