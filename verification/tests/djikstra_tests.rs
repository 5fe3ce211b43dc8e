use kyopro_lib::graph::djikstra as dj;
use kyopro_lib::graph::LabeledGraph;
use kyopro_lib::random::basic::Pcg;

#[test]
fn djikstra() {
    const N: usize = 13;
    const M: usize = 29;
    let mut rand = Pcg::new(819);

    for _ in 0..10 {
        let mut g = LabeledGraph::builder(N);
        for _ in 0..M {
            let u = rand.next_u32() as usize % N;
            let v = rand.next_u32() as usize % N;
            let w = rand.next_u32() >> 10;
            g.edge(u, v, w);
        }
        let g = g.build();

        let s = rand.next_u32() as usize % N;

        let mut dist_bf = vec![None; N];
        dist_bf[s] = Some(0);
        for _ in 0..N {
            for u in 0..N {
                if let Some(du) = dist_bf[u] {
                    for &(v, w) in g.get(u) {
                        if let Some(dv) = dist_bf[v] {
                            if du + w < dv {
                                dist_bf[v] = Some(du + w);
                            }
                        } else {
                            dist_bf[v] = Some(du + w);
                        }
                    }
                }
            }
        }

        let dist_d = dj::djikstra(&g, s);

        assert_eq!(dist_d, dist_bf);
    }
}

#[test]
fn djikstra_small_and_unreachable() {
    let mut b = LabeledGraph::builder(4);
    b.edge(0, 1, 5u64);
    b.edge(0, 2, 1u64);
    b.edge(2, 1, 2u64);
    b.edge(3, 0, 1u64);
    let g = b.build();
    assert_eq!(dj::djikstra(&g, 0), vec![Some(0), Some(3), Some(1), None]);
}
