//! Knowledge-graph store and traversal tests.

use gvpe::{
    BfsOrder, ComponentId, DfsOrder, Edge, EdgeId, Graph, GraphError, GraphTraverser, GraphWalker,
    Node, NodeId, RelationKind,
};

// ============================================================================
// 测试用 Node / Edge impl（最小化字段以隔离测试）
// ============================================================================

#[derive(Clone, Debug)]
struct TestNode {
    id: NodeId,
    name: &'static str,
}

impl Node for TestNode {
    fn spec_id(&self) -> NodeId {
        self.id
    }
    fn id(&self) -> NodeId {
        self.id
    }
    fn label(&self) -> &'static str {
        self.name
    }
}

#[derive(Clone, Debug)]
struct TestEdge {
    id: EdgeId,
    src: NodeId,
    dst: NodeId,
    rel: RelationKind,
}

impl Edge for TestEdge {
    fn spec_id(&self) -> EdgeId {
        self.id
    }
    fn spec_src(&self) -> NodeId {
        self.src
    }
    fn spec_dst(&self) -> NodeId {
        self.dst
    }
    fn id(&self) -> EdgeId {
        self.id
    }
    fn relation(&self) -> RelationKind {
        self.rel
    }
    fn src(&self) -> NodeId {
        self.src
    }
    fn dst(&self) -> NodeId {
        self.dst
    }
    fn label(&self) -> &'static str {
        "test-edge"
    }
}

fn nid(v: u64) -> NodeId {
    NodeId::new(v)
}

fn eid(v: u64) -> EdgeId {
    EdgeId::new(v)
}

// ============================================================================
// 1. 空图状态
// ============================================================================

#[test]
fn empty_graph_state() {
    let g: Graph<TestNode, TestEdge> = Graph::new();
    assert_eq!(g.node_count(), 0);
    assert_eq!(g.edge_count(), 0);
    assert!(g.is_empty());
    let stats = g.stats();
    assert_eq!(stats.node_count, 0);
    assert_eq!(stats.edge_count, 0);
    assert!(!g.contains_node(nid(1)));
}

// ============================================================================
// 2. 节点添加 + 重复 ID 拒绝
// ============================================================================

#[test]
fn add_node_basic_and_duplicate_rejected() {
    let mut g: Graph<TestNode, TestEdge> = Graph::new();
    let id = g
        .add_node(TestNode {
            id: nid(1),
            name: "alpha",
        })
        .expect("add_node(1)");
    assert_eq!(id, nid(1));
    assert_eq!(g.node_count(), 1);

    // 重复 ID 拒绝。
    let dup = g.add_node(TestNode {
        id: nid(1),
        name: "alpha-dup",
    });
    assert!(matches!(dup, Err(GraphError::DuplicateNode(_))));
    assert_eq!(g.node_count(), 1);

    // 第二个不同 ID。
    g.add_node(TestNode {
        id: nid(2),
        name: "beta",
    })
    .expect("add_node(2)");
    assert_eq!(g.node_count(), 2);
}

// ============================================================================
// 3. 边添加 + 端点不存在拒绝
// ============================================================================

#[test]
fn add_edge_basic_and_endpoint_rejected() {
    let mut g: Graph<TestNode, TestEdge> = Graph::new();
    g.add_node(TestNode {
        id: nid(1),
        name: "a",
    })
    .unwrap();
    g.add_node(TestNode {
        id: nid(2),
        name: "b",
    })
    .unwrap();

    // 正常添加。
    g.add_edge(TestEdge {
        id: eid(100),
        src: nid(1),
        dst: nid(2),
        rel: RelationKind::HasProperty,
    })
    .expect("add_edge(100)");
    assert_eq!(g.edge_count(), 1);

    // 边 ID 重复拒绝。
    let dup = g.add_edge(TestEdge {
        id: eid(100),
        src: nid(2),
        dst: nid(1),
        rel: RelationKind::Generic,
    });
    assert!(matches!(dup, Err(GraphError::DuplicateEdge(_))));

    // 端点不存在拒绝（src）。
    let bad_src = g.add_edge(TestEdge {
        id: eid(101),
        src: nid(999),
        dst: nid(1),
        rel: RelationKind::Generic,
    });
    assert!(matches!(
        bad_src,
        Err(GraphError::UnknownEndpoint(id, "src")) if id == nid(999)
    ));

    // 端点不存在拒绝（dst）。
    let bad_dst = g.add_edge(TestEdge {
        id: eid(102),
        src: nid(1),
        dst: nid(888),
        rel: RelationKind::Generic,
    });
    assert!(matches!(
        bad_dst,
        Err(GraphError::UnknownEndpoint(id, "dst")) if id == nid(888)
    ));
}

// ============================================================================
// 4. 邻接表 / 邻居 / 自环 / 多重边
// ============================================================================

#[test]
fn adjacency_neighbors_self_loop_multi_edge() {
    let mut g: Graph<TestNode, TestEdge> = Graph::new();
    for i in 1u64..=3 {
        g.add_node(TestNode {
            id: nid(i),
            name: "n",
        })
        .unwrap();
    }
    // 1 → 2, 1 → 3, 1 → 1 (自环), 2 → 1 (反向), 2 → 3 (多重)
    g.add_edge(TestEdge {
        id: eid(10),
        src: nid(1),
        dst: nid(2),
        rel: RelationKind::HasProperty,
    })
    .unwrap();
    g.add_edge(TestEdge {
        id: eid(11),
        src: nid(1),
        dst: nid(3),
        rel: RelationKind::HasProperty,
    })
    .unwrap();
    g.add_edge(TestEdge {
        id: eid(12),
        src: nid(1),
        dst: nid(1),
        rel: RelationKind::Generic,
    })
    .unwrap(); // 自环
    g.add_edge(TestEdge {
        id: eid(13),
        src: nid(2),
        dst: nid(1),
        rel: RelationKind::Generic,
    })
    .unwrap();
    g.add_edge(TestEdge {
        id: eid(14),
        src: nid(2),
        dst: nid(3),
        rel: RelationKind::Generic,
    })
    .unwrap(); // 多重边（2→3 多条留作下个测试）

    // node 1 出边 3 条：10, 11, 12
    let out1 = g.outgoing_edges(nid(1)).unwrap();
    assert_eq!(out1.len(), 3);
    assert!(out1.contains(&eid(10)));
    assert!(out1.contains(&eid(11)));
    assert!(out1.contains(&eid(12)));

    // node 1 邻居去重 = {1, 2, 3}（自环 1 包含）
    let nb1 = g.neighbors(nid(1)).unwrap();
    assert_eq!(nb1.len(), 3);
    assert!(nb1.contains(&nid(1)));
    assert!(nb1.contains(&nid(2)));
    assert!(nb1.contains(&nid(3)));

    // node 2 入边 1 条
    let in2 = g.incoming_edges(nid(2)).unwrap();
    assert_eq!(in2.len(), 1);
    assert_eq!(in2[0], eid(10));
}

// ============================================================================
// 5. 多重边：2→3 重复
// ============================================================================

#[test]
fn multi_edge_between_same_pair_allowed() {
    let mut g: Graph<TestNode, TestEdge> = Graph::new();
    for i in 1u64..=2 {
        g.add_node(TestNode {
            id: nid(i),
            name: "n",
        })
        .unwrap();
    }
    g.add_edge(TestEdge {
        id: eid(1),
        src: nid(1),
        dst: nid(2),
        rel: RelationKind::HasProperty,
    })
    .unwrap();
    g.add_edge(TestEdge {
        id: eid(2),
        src: nid(1),
        dst: nid(2),
        rel: RelationKind::Generic,
    })
    .unwrap();
    assert_eq!(g.edge_count(), 2);
    let out1 = g.outgoing_edges(nid(1)).unwrap();
    assert_eq!(out1.len(), 2);
    // 邻居去重后只 1 个
    let nb = g.neighbors(nid(1)).unwrap();
    assert_eq!(nb, vec![nid(2)]);
}

// ============================================================================
// 6. DFS preorder
// ============================================================================

#[test]
fn dfs_preorder_collects_reachable_nodes() {
    // 链：1 → 2 → 3；从 1 出发 DFS 深度 10，应得 [1, 2, 3]
    let mut g: Graph<TestNode, TestEdge> = Graph::new();
    for i in 1u64..=3 {
        g.add_node(TestNode {
            id: nid(i),
            name: "n",
        })
        .unwrap();
    }
    g.add_edge(TestEdge {
        id: eid(1),
        src: nid(1),
        dst: nid(2),
        rel: RelationKind::HasProperty,
    })
    .unwrap();
    g.add_edge(TestEdge {
        id: eid(2),
        src: nid(2),
        dst: nid(3),
        rel: RelationKind::HasProperty,
    })
    .unwrap();

    let order: DfsOrder = g.bounded_dfs_collect(nid(1), 10).expect("dfs");
    let nodes: Vec<NodeId> = order.nodes();
    assert_eq!(nodes, vec![nid(1), nid(2), nid(3)]);
    assert_eq!(order.visited_count, 3);
}

// ============================================================================
// 7. BFS 层次
// ============================================================================

#[test]
fn bfs_layers() {
    // 树：
    //      1
    //     / \
    //    2   3
    //   / \
    //  4   5
    let mut g: Graph<TestNode, TestEdge> = Graph::new();
    for i in 1u64..=5 {
        g.add_node(TestNode {
            id: nid(i),
            name: "n",
        })
        .unwrap();
    }
    g.add_edge(TestEdge {
        id: eid(1),
        src: nid(1),
        dst: nid(2),
        rel: RelationKind::HasProperty,
    })
    .unwrap();
    g.add_edge(TestEdge {
        id: eid(2),
        src: nid(1),
        dst: nid(3),
        rel: RelationKind::HasProperty,
    })
    .unwrap();
    g.add_edge(TestEdge {
        id: eid(3),
        src: nid(2),
        dst: nid(4),
        rel: RelationKind::HasProperty,
    })
    .unwrap();
    g.add_edge(TestEdge {
        id: eid(4),
        src: nid(2),
        dst: nid(5),
        rel: RelationKind::HasProperty,
    })
    .unwrap();

    let bfs: BfsOrder = g.bounded_bfs_collect(nid(1), 10).expect("bfs");
    assert_eq!(bfs.layers.len(), 3, "depth 0, 1, 2 共三层");
    assert_eq!(bfs.layers[0], vec![nid(1)]);
    assert_eq!(bfs.layers[1].len(), 2);
    assert!(bfs.layers[1].contains(&nid(2)));
    assert!(bfs.layers[1].contains(&nid(3)));
    assert_eq!(bfs.layers[2].len(), 2);
    assert!(bfs.layers[2].contains(&nid(4)));
    assert!(bfs.layers[2].contains(&nid(5)));
}

// ============================================================================
// 8. 有界遍历深度上限
// ============================================================================

#[test]
fn bounded_traversal_depth_cap() {
    // 链 1 → 2 → 3 → 4；max_depth=2 应只访问 1 和 2
    let mut g: Graph<TestNode, TestEdge> = Graph::new();
    for i in 1u64..=4 {
        g.add_node(TestNode {
            id: nid(i),
            name: "n",
        })
        .unwrap();
    }
    for (i, (s, d)) in [(1u64, 2u64), (2, 3), (3, 4)].iter().enumerate() {
        g.add_edge(TestEdge {
            id: eid((i + 1) as u64),
            src: nid(*s),
            dst: nid(*d),
            rel: RelationKind::HasProperty,
        })
        .unwrap();
    }
    let dfs: DfsOrder = g.bounded_dfs_collect(nid(1), 2).expect("dfs");
    let nodes: Vec<NodeId> = dfs.nodes();
    assert_eq!(nodes, vec![nid(1), nid(2)], "max_depth=2 应停在 2");

    let bfs: BfsOrder = g.bounded_bfs_collect(nid(1), 2).expect("bfs");
    assert_eq!(bfs.layers.len(), 2);
    assert_eq!(bfs.layers[0], vec![nid(1)]);
    assert_eq!(bfs.layers[1], vec![nid(2)]);
}

// ============================================================================
// 9. max_depth=0 拒绝
// ============================================================================

#[test]
fn zero_max_depth_rejected() {
    let mut g: Graph<TestNode, TestEdge> = Graph::new();
    g.add_node(TestNode {
        id: nid(1),
        name: "n",
    })
    .unwrap();
    let r1 = g.bounded_dfs(nid(1), 0, |_| true);
    assert!(matches!(r1, Err(GraphError::ZeroMaxDepth(0))));
    let r2 = g.bounded_bfs(nid(1), 0, |_| true);
    assert!(matches!(r2, Err(GraphError::ZeroMaxDepth(0))));
}

// ============================================================================
// 10. DFS 短路回调
// ============================================================================

#[test]
fn dfs_callback_short_circuit() {
    let mut g: Graph<TestNode, TestEdge> = Graph::new();
    for i in 1u64..=3 {
        g.add_node(TestNode {
            id: nid(i),
            name: "n",
        })
        .unwrap();
    }
    g.add_edge(TestEdge {
        id: eid(1),
        src: nid(1),
        dst: nid(2),
        rel: RelationKind::HasProperty,
    })
    .unwrap();
    g.add_edge(TestEdge {
        id: eid(2),
        src: nid(1),
        dst: nid(3),
        rel: RelationKind::HasProperty,
    })
    .unwrap();
    let mut count = 0usize;
    g.bounded_dfs(nid(1), 10, |event| {
        count += 1;
        // 访问到节点 2 后短路（不继续兄弟 3）
        event.node_id != nid(2)
    })
    .expect("dfs");
    assert_eq!(count, 2, "应访问 root + 节点 2 即停");
}

// ============================================================================
// 11. 连通分量
// ============================================================================

#[test]
fn connected_components_basic() {
    // 三个分量：
    //   A: 1 → 2
    //   B: 3 → 4
    //   C: 5 (孤点)
    let mut g: Graph<TestNode, TestEdge> = Graph::new();
    for i in 1u64..=5 {
        g.add_node(TestNode {
            id: nid(i),
            name: "n",
        })
        .unwrap();
    }
    g.add_edge(TestEdge {
        id: eid(1),
        src: nid(1),
        dst: nid(2),
        rel: RelationKind::HasProperty,
    })
    .unwrap();
    g.add_edge(TestEdge {
        id: eid(2),
        src: nid(3),
        dst: nid(4),
        rel: RelationKind::HasProperty,
    })
    .unwrap();
    let comps = g.connected_components();
    assert_eq!(comps.len(), 3);
    let mut sizes: Vec<usize> = comps.iter().map(|(_, vs)| vs.len()).collect();
    sizes.sort_unstable();
    assert_eq!(sizes, vec![1, 2, 2]);
}

// ============================================================================
// 12. self-loop 防御：DFS 不会无限循环
// ============================================================================

#[test]
fn dfs_does_not_loop_on_self_edge() {
    let mut g: Graph<TestNode, TestEdge> = Graph::new();
    for i in 1u64..=2 {
        g.add_node(TestNode {
            id: nid(i),
            name: "n",
        })
        .unwrap();
    }
    g.add_edge(TestEdge {
        id: eid(1),
        src: nid(1),
        dst: nid(1),
        rel: RelationKind::Generic,
    })
    .unwrap();
    g.add_edge(TestEdge {
        id: eid(2),
        src: nid(1),
        dst: nid(2),
        rel: RelationKind::HasProperty,
    })
    .unwrap();
    let dfs: DfsOrder = g.bounded_dfs_collect(nid(1), 10).expect("dfs");
    let nodes: Vec<NodeId> = dfs.nodes();
    // 期望 [1, 2]——自环被 visited 拦截
    assert_eq!(nodes, vec![nid(1), nid(2)]);
}

// ============================================================================
// 13. 不存在的 start 节点
// ============================================================================

#[test]
fn traversal_with_unknown_start_rejected() {
    let g: Graph<TestNode, TestEdge> = Graph::new();
    let r1 = g.bounded_dfs_collect(nid(999), 5);
    assert!(matches!(r1, Err(GraphError::UnknownNode(_))));
    let r2 = g.bounded_bfs_collect(nid(999), 5);
    assert!(matches!(r2, Err(GraphError::UnknownNode(_))));
}

// ============================================================================
// Further cases
// ============================================================================

fn chain_graph(ids: &[u64], edges: &[(u64, u64, u64)]) -> Graph<TestNode, TestEdge> {
    let mut g: Graph<TestNode, TestEdge> = Graph::new();
    for &i in ids {
        g.add_node(TestNode { id: nid(i), name: "n" }).unwrap();
    }
    for &(e, s, d) in edges {
        g.add_edge(TestEdge { id: eid(e), src: nid(s), dst: nid(d), rel: RelationKind::Generic })
            .unwrap();
    }
    g
}

#[test]
fn dfs_preorder_on_cycle_visits_each_node_once() {
    // 1 -> 2 -> 3 -> 1, 1 -> 3, 3 -> 4
    let g = chain_graph(&[1, 2, 3, 4], &[(1, 1, 2), (2, 2, 3), (3, 3, 1), (4, 1, 3), (5, 3, 4)]);
    let order = g.bounded_dfs_collect(nid(1), 10).unwrap();
    assert_eq!(order.order, vec![(nid(1), 0), (nid(2), 1), (nid(3), 2), (nid(4), 3)]);
    assert_eq!(order.visited_count, 4);
}

#[test]
fn dfs_depth_limit_skips_deep_path_even_if_shorter_path_exists() {
    // 1 -> 2 -> 3 and 1 -> 3: DFS reaches 3 through 2 first (depth 2).
    let g = chain_graph(&[1, 2, 3], &[(1, 1, 2), (2, 2, 3), (3, 1, 3)]);
    let order = g.bounded_dfs_collect(nid(1), 2).unwrap();
    // depth limit 2: 2 is at the limit and not expanded; 3 is reached directly.
    assert_eq!(order.order, vec![(nid(1), 0), (nid(2), 1), (nid(3), 1)]);
}

#[test]
fn dfs_max_depth_one_visits_only_start() {
    let g = chain_graph(&[1, 2], &[(1, 1, 2)]);
    let order = g.bounded_dfs_collect(nid(1), 1).unwrap();
    assert_eq!(order.order, vec![(nid(1), 0)]);
    let bfs = g.bounded_bfs_collect(nid(1), 1).unwrap();
    assert_eq!(bfs.order, vec![(nid(1), 0)]);
    assert_eq!(bfs.layers, vec![vec![nid(1)]]);
}

#[test]
fn bfs_order_is_level_by_level() {
    // 1 -> 2, 1 -> 3, 2 -> 4, 3 -> 5, 4 -> 6
    let g = chain_graph(&[1, 2, 3, 4, 5, 6], &[(1, 1, 2), (2, 1, 3), (3, 2, 4), (4, 3, 5), (5, 4, 6)]);
    let bfs = g.bounded_bfs_collect(nid(1), 10).unwrap();
    assert_eq!(
        bfs.order,
        vec![(nid(1), 0), (nid(2), 1), (nid(3), 1), (nid(4), 2), (nid(5), 2), (nid(6), 3)]
    );
    assert_eq!(bfs.nodes(), vec![nid(1), nid(2), nid(3), nid(4), nid(5), nid(6)]);
    assert_eq!(
        bfs.layers,
        vec![vec![nid(1)], vec![nid(2), nid(3)], vec![nid(4), nid(5)], vec![nid(6)]]
    );
    let dfs = g.bounded_dfs_collect(nid(1), 10).unwrap();
    assert_eq!(dfs.nodes(), vec![nid(1), nid(2), nid(4), nid(6), nid(3), nid(5)]);
}

#[test]
fn bfs_callback_false_stops_whole_traversal() {
    let g = chain_graph(&[1, 2, 3, 4], &[(1, 1, 2), (2, 1, 3), (3, 2, 4)]);
    let mut seen: Vec<NodeId> = Vec::new();
    g.bounded_bfs(nid(1), 10, |ev| {
        seen.push(ev.node_id);
        ev.node_id != nid(2)
    })
    .unwrap();
    assert_eq!(seen, vec![nid(1), nid(2)]);
}

#[test]
fn dfs_callback_false_stops_only_the_current_expansion() {
    // 1 -> 2, 2 -> 3, 2 -> 4, 1 -> 5: answering false at 3 ends the expansion
    // of 2 (so 4 is skipped) but 1 goes on to 5.
    let g = chain_graph(&[1, 2, 3, 4, 5], &[(1, 1, 2), (2, 2, 3), (3, 2, 4), (4, 1, 5)]);
    let mut seen: Vec<(NodeId, usize, Option<EdgeId>)> = Vec::new();
    g.bounded_dfs(nid(1), 10, |ev| {
        seen.push((ev.node_id, ev.depth, ev.via_edge));
        assert_eq!(ev.node.id, ev.node_id);
        if let Some(e) = ev.edge {
            assert_eq!(Some(e.id), ev.via_edge);
            assert_eq!(e.dst, ev.node_id);
        }
        ev.node_id != nid(3)
    })
    .unwrap();
    assert_eq!(
        seen,
        vec![
            (nid(1), 0, None),
            (nid(2), 1, Some(eid(1))),
            (nid(3), 2, Some(eid(2))),
            (nid(5), 1, Some(eid(4))),
        ]
    );
}

#[test]
fn traversal_errors_and_order_of_checks() {
    let g = chain_graph(&[1], &[]);
    // max_depth == 0 is checked before the start.
    assert_eq!(g.bounded_dfs(nid(9), 0, |_| true), Err(GraphError::ZeroMaxDepth(0)));
    assert_eq!(g.bounded_bfs(nid(9), 0, |_| true), Err(GraphError::ZeroMaxDepth(0)));
    assert_eq!(g.bounded_dfs(nid(9), 3, |_| true), Err(GraphError::UnknownNode(nid(9))));
    assert_eq!(g.bounded_bfs(nid(9), 3, |_| true), Err(GraphError::UnknownNode(nid(9))));
    assert!(matches!(g.bounded_dfs_collect(nid(1), 0), Err(GraphError::ZeroMaxDepth(0))));
    assert!(matches!(g.bounded_bfs_collect(nid(9), 2), Err(GraphError::UnknownNode(n)) if n == nid(9)));
}

#[test]
fn components_join_nodes_across_edge_direction() {
    // 2 -> 1: in the undirected view 1 and 2 form one component.
    let g = chain_graph(&[1, 2], &[(1, 2, 1)]);
    let comps = g.connected_components();
    assert_eq!(comps, vec![(ComponentId(0), vec![nid(1), nid(2)])]);
    assert_eq!(g.all_node_ids(), vec![nid(1), nid(2)]);
}

#[test]
fn components_cover_every_node() {
    let g = chain_graph(&[5, 4, 3, 2, 1], &[(1, 5, 4), (2, 3, 1)]);
    let comps = g.connected_components();
    for id in g.all_node_ids() {
        assert!(comps.iter().any(|(_, c)| c.contains(&id)));
    }
    assert_eq!(
        comps,
        vec![
            (ComponentId(0), vec![nid(5), nid(4)]),
            (ComponentId(1), vec![nid(3), nid(1)]),
            (ComponentId(2), vec![nid(2)]),
        ]
    );
}

#[test]
fn lookups_and_errors() {
    let mut g = chain_graph(&[1, 2], &[(7, 1, 2)]);
    assert!(g.contains_edge(eid(7)));
    assert!(!g.contains_edge(eid(8)));
    assert_eq!(g.node_payload(nid(2)).unwrap().id, nid(2));
    assert!(matches!(g.node_payload(nid(3)), Err(GraphError::UnknownNode(n)) if n == nid(3)));
    assert_eq!(g.edge_payload(eid(7)).unwrap().dst, nid(2));
    assert!(matches!(g.edge_payload(eid(8)), Err(GraphError::UnknownEdge(e)) if e == eid(8)));
    assert!(matches!(g.outgoing_edges(nid(3)), Err(GraphError::UnknownNode(_))));
    assert!(matches!(g.incoming_edges(nid(3)), Err(GraphError::UnknownNode(_))));
    assert!(matches!(g.neighbors(nid(3)), Err(GraphError::UnknownNode(_))));
    assert_eq!(g.incoming_edges(nid(2)).unwrap(), &[eid(7)]);
    let ids: Vec<NodeId> = g.nodes().iter().map(|(id, _)| *id).collect();
    assert_eq!(ids, vec![nid(1), nid(2)]);
    let eids: Vec<EdgeId> = g.edges().iter().map(|(id, _)| *id).collect();
    assert_eq!(eids, vec![eid(7)]);
    assert!(matches!(
        g.add_node(TestNode { id: nid(2), name: "again" }),
        Err(GraphError::DuplicateNode(n)) if n == nid(2)
    ));
    assert_eq!(g.node_count(), 2);
    assert!(!g.is_empty());
}

#[test]
fn neighbors_keep_first_appearance_order() {
    let g = chain_graph(&[1, 2, 3], &[(1, 1, 3), (2, 1, 2), (3, 1, 3), (4, 1, 1)]);
    assert_eq!(g.neighbors(nid(1)).unwrap(), vec![nid(3), nid(2), nid(1)]);
    assert_eq!(g.neighbors(nid(2)).unwrap(), Vec::<NodeId>::new());
}

#[test]
fn id_texts() {
    assert_eq!(nid(42).to_string(), "NodeId(0x000000000000002a)");
    assert_eq!(eid(0xdead_beef).to_string(), "EdgeId(0x00000000deadbeef)");
    assert_eq!(NodeId::new(u64::MAX).to_string(), "NodeId(0xffffffffffffffff)");
    assert_eq!(ComponentId::new(0).to_string(), "ComponentId(0)");
    assert_eq!(ComponentId::new(1207).to_string(), "ComponentId(1207)");
    assert_eq!(ComponentId::new(7).get(), 7);
    assert_eq!(NodeId::invalid(), nid(0));
    assert_eq!(EdgeId::invalid().get(), 0);
}

#[test]
fn relation_names() {
    assert_eq!(RelationKind::HasMaterial.as_str(), "HAS_MATERIAL");
    assert_eq!(RelationKind::ParticipatesIn.as_str(), "PARTICIPATES_IN");
    assert_eq!(RelationKind::Generic.as_str(), "GENERIC");
}

#[test]
fn depth_limit_of_events() {
    let g = chain_graph(&[1, 2], &[(1, 1, 2)]);
    let mut limits: Vec<bool> = Vec::new();
    g.bounded_dfs(nid(1), 2, |ev| {
        limits.push(ev.is_at_depth_limit(2));
        true
    })
    .unwrap();
    assert_eq!(limits, vec![false, true]);
}

#[test]
fn traversal_orders_default_empty() {
    let d = DfsOrder::default();
    assert!(d.nodes().is_empty());
    let b = BfsOrder::default();
    assert!(b.layers.is_empty() && b.nodes().is_empty());
}

#[test]
fn bfs_depth_is_shortest_chain_length() {
    // 1 -> 2 -> 3 -> 4 and a shortcut 1 -> 4; 4 -> 5.
    // Shortest chains: 2 at 1, 3 at 2, 4 at 1 (shortcut), 5 at 2.
    let g = chain_graph(&[1, 2, 3, 4, 5], &[(1, 1, 2), (2, 2, 3), (3, 3, 4), (4, 1, 4), (5, 4, 5)]);
    let bfs = g.bounded_bfs_collect(nid(1), 10).unwrap();
    assert_eq!(
        bfs.order,
        vec![(nid(1), 0), (nid(2), 1), (nid(4), 1), (nid(3), 2), (nid(5), 2)]
    );
}

#[test]
fn bfs_reaches_every_node_within_the_limit() {
    // Same graph, limit 3: every node is at most 2 edges away, so all are
    // visited even though the long way to 5 takes 4 edges.
    let g = chain_graph(&[1, 2, 3, 4, 5], &[(1, 1, 2), (2, 2, 3), (3, 3, 4), (4, 1, 4), (5, 4, 5)]);
    let bfs = g.bounded_bfs_collect(nid(1), 3).unwrap();
    let mut seen = bfs.nodes();
    seen.sort();
    assert_eq!(seen, vec![nid(1), nid(2), nid(3), nid(4), nid(5)]);
    // Limit 2: only nodes at most one edge away.
    let bfs = g.bounded_bfs_collect(nid(1), 2).unwrap();
    assert_eq!(bfs.order, vec![(nid(1), 0), (nid(2), 1), (nid(4), 1)]);
}

#[test]
fn add_node_uses_the_id_the_node_reports() {
    let mut g: Graph<TestNode, TestEdge> = Graph::new();
    assert_eq!(g.add_node(TestNode { id: nid(7), name: "a" }), Ok(nid(7)));
    assert_eq!(g.add_node(TestNode { id: nid(7), name: "b" }), Err(GraphError::DuplicateNode(nid(7))));
    assert_eq!(g.node_count(), 1);
    assert_eq!(g.node_payload(nid(7)).unwrap().name, "a");
    assert_eq!(g.outgoing_edges(nid(7)).unwrap(), &[][..]);
    assert_eq!(g.incoming_edges(nid(7)).unwrap(), &[][..]);
}

#[test]
fn add_edge_checks_id_then_source_then_target() {
    let mut g = chain_graph(&[1, 2], &[(1, 1, 2)]);
    let e = |id: u64, s: u64, d: u64| TestEdge { id: eid(id), src: nid(s), dst: nid(d), rel: RelationKind::Generic };
    assert_eq!(g.add_edge(e(1, 8, 9)), Err(GraphError::DuplicateEdge(eid(1))));
    assert!(matches!(g.add_edge(e(2, 8, 9)), Err(GraphError::UnknownEndpoint(n, "src")) if n == nid(8)));
    assert!(matches!(g.add_edge(e(2, 1, 9)), Err(GraphError::UnknownEndpoint(n, "dst")) if n == nid(9)));
    assert_eq!(g.edge_count(), 1);
    assert_eq!(g.add_edge(e(2, 2, 1)), Ok(eid(2)));
    assert_eq!(g.neighbors(nid(2)).unwrap(), vec![nid(1)]);
    assert_eq!(g.outgoing_edges(nid(2)).unwrap(), &[eid(2)][..]);
    assert_eq!(g.incoming_edges(nid(1)).unwrap(), &[eid(2)][..]);
}

#[test]
fn component_holds_every_node_joined_by_a_chain() {
    // 1 -> 2 -> 3 -> 4 -> 5, 3 -> 6 and 7 -> 1: one component; 8 stands alone.
    let g = chain_graph(
        &[1, 2, 3, 4, 5, 6, 7, 8],
        &[(1, 1, 2), (2, 2, 3), (3, 3, 4), (4, 4, 5), (5, 3, 6), (6, 7, 1)],
    );
    let comps = g.connected_components();
    assert_eq!(
        comps,
        vec![
            (ComponentId(0), vec![nid(1), nid(2), nid(3), nid(4), nid(5), nid(6), nid(7)]),
            (ComponentId(1), vec![nid(8)]),
        ]
    );
}

#[test]
fn components_partition_the_nodes() {
    // 4 -> 2, 3 -> 1, 1 -> 4: every node in one component, listed in
    // insertion order; 5 and 6 are joined by 6 -> 5.
    let g = chain_graph(&[1, 2, 3, 4, 5, 6], &[(1, 4, 2), (2, 3, 1), (3, 1, 4), (4, 6, 5)]);
    let comps = g.connected_components();
    assert_eq!(
        comps,
        vec![
            (ComponentId(0), vec![nid(1), nid(2), nid(3), nid(4)]),
            (ComponentId(1), vec![nid(5), nid(6)]),
        ]
    );
    for id in g.all_node_ids() {
        assert_eq!(comps.iter().filter(|(_, c)| c.contains(&id)).count(), 1);
    }
}

#[test]
fn added_edge_reads_back_through_every_view() {
    let mut g = chain_graph(&[1, 2], &[]);
    let e100 = TestEdge { id: eid(100), src: nid(1), dst: nid(2), rel: RelationKind::Generic };
    assert_eq!(g.add_edge(e100), Ok(eid(100)));
    let bad = TestEdge { id: eid(101), src: nid(999), dst: nid(1), rel: RelationKind::Generic };
    assert!(matches!(g.add_edge(bad), Err(GraphError::UnknownEndpoint(n, "src")) if n == nid(999)));
    assert!(g.contains_edge(eid(100)));
    assert!(!g.contains_edge(eid(101)));
    assert_eq!(g.edge_count(), 1);
    assert_eq!(g.stats().edge_count, g.edges().len());
    let payload = g.edge_payload(eid(100)).unwrap();
    assert_eq!((payload.id, payload.src, payload.dst), (eid(100), nid(1), nid(2)));
    assert!(matches!(g.edge_payload(eid(101)), Err(GraphError::UnknownEdge(e)) if e == eid(101)));
    let listed: Vec<EdgeId> = g.edges().into_iter().map(|(id, _)| id).collect();
    assert_eq!(listed, vec![eid(100)]);
    assert_eq!(g.outgoing_edges(nid(1)).unwrap(), &[eid(100)][..]);
    assert_eq!(g.incoming_edges(nid(2)).unwrap(), &[eid(100)][..]);
}

#[test]
fn bfs_callback_sees_each_reachable_node_once_by_depth() {
    // 1 -> 2, 1 -> 3, 2 -> 3, 3 -> 4
    let g = chain_graph(&[1, 2, 3, 4], &[(1, 1, 2), (2, 1, 3), (3, 2, 3), (4, 3, 4)]);
    let mut seen: Vec<(NodeId, usize, Option<EdgeId>)> = Vec::new();
    g.bounded_bfs(nid(1), 10, |ev| {
        seen.push((ev.node_id, ev.depth, ev.via_edge));
        true
    })
    .unwrap();
    assert_eq!(
        seen,
        vec![(nid(1), 0, None), (nid(2), 1, Some(eid(1))), (nid(3), 1, Some(eid(2))), (nid(4), 2, Some(eid(4)))]
    );
}
