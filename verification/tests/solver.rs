use passion_rs::{
    all_configs, advance_row, make_row_config, solve, BlockSpec, BlockSpecIterator, MalformedLine,
    Puzzle,
};

/// Run-length decodes one line: the lengths of its maximal filled runs.
fn runs_of(cells: &[bool]) -> Vec<usize> {
    let mut out = Vec::new();
    let mut current = 0usize;
    for &cell in cells {
        if cell {
            current += 1;
        } else if current > 0 {
            out.push(current);
            current = 0;
        }
    }
    if current > 0 {
        out.push(current);
    }
    out
}

fn row_cells(grid: &[Vec<bool>], r: usize) -> Vec<bool> {
    grid.iter().map(|col| col[r]).collect()
}

#[test]
fn test_block_spec() {
    let bs = BlockSpec::new(vec![2, 3], 7).unwrap();
    assert_eq!(bs.n_space, 7 - (2 + 1 + 3));
}

#[test]
fn test_column_configs() {
    let bs = BlockSpec::new(vec![2, 3], 7).unwrap();
    let mut it = BlockSpecIterator::new(&bs);
    let mut n = 0;
    while let Some(_) = it.next() {
        n += 1;
    }
    assert_eq!(n, 3);
}

#[test]
fn test_wider_configs() {
    assert_eq!(all_configs(&BlockSpec::new(vec![2], 7).unwrap()).len(), 6);
    assert_eq!(all_configs(&BlockSpec::new(vec![2, 2], 7).unwrap()).len(), 6);
}

#[test]
fn test_advance_row() {
    let rr = vec![false, true, true, false, true, false];
    assert_eq!(advance_row(&rr, 0, true, 10), Ok(1));
    assert_eq!(advance_row(&rr, 0, false, 4), Ok(0));
    assert_eq!(advance_row(&rr, 0, false, 3), Err(())); // fail on column count

    assert_eq!(advance_row(&rr, 1, true, 10), Ok(2));
    assert_eq!(advance_row(&rr, 1, false, 10), Err(()));
    assert_eq!(advance_row(&rr, 2, true, 10), Err(()));
    assert_eq!(advance_row(&rr, 2, false, 10), Ok(3));
}

#[test]
fn test_make_row_config() {
    let rc = make_row_config(&BlockSpec::new(vec![2, 1], 10).unwrap());
    assert_eq!(rc, vec![false, true, true, false, true, false]);
}

#[test]
fn test_block_spec_unfit() {
    assert!(BlockSpec::new(vec![3], 2).is_none());
    assert!(BlockSpec::new(vec![3], 3).is_some());
    assert!(BlockSpec::new(vec![], 0).is_some());
}

#[test]
fn test_configs_exact() {
    let cfgs = all_configs(&BlockSpec::new(vec![2, 3], 7).unwrap());
    assert_eq!(cfgs.len(), 3);
    let t = true;
    let f = false;
    assert!(cfgs.contains(&vec![t, t, f, t, t, t, f]));
    assert!(cfgs.contains(&vec![f, t, t, f, t, t, t]));
    assert!(cfgs.contains(&vec![t, t, f, f, t, t, t]));
    assert_ne!(cfgs[0], cfgs[1]);
    assert_ne!(cfgs[0], cfgs[2]);
    assert_ne!(cfgs[1], cfgs[2]);
}

#[test]
fn test_configs_shape() {
    let blocks = vec![2usize, 3];
    let cfgs = all_configs(&BlockSpec::new(blocks.clone(), 7).unwrap());
    for cfg in &cfgs {
        assert_eq!(cfg.len(), 7);
        assert_eq!(runs_of(cfg), blocks);
    }
    // zero slack leaves exactly one placement
    let tight = all_configs(&BlockSpec::new(vec![1, 1, 1], 5).unwrap());
    assert_eq!(tight, vec![vec![true, false, true, false, true]]);
}

#[test]
fn test_zero_block_line() {
    let empty = all_configs(&BlockSpec::new(vec![], 4).unwrap());
    assert_eq!(empty, vec![vec![false, false, false, false]]);

    let res = solve(Puzzle { horizontal: vec![vec![], vec![2]], vertical: vec![vec![1], vec![1]] });
    assert_eq!(res, Ok(Some(vec![vec![false, true], vec![false, true]])));
}

#[test]
fn test_solve_single() {
    let res = solve(Puzzle { horizontal: vec![vec![1]], vertical: vec![vec![1]] });
    assert_eq!(res, Ok(Some(vec![vec![true]])));
}

#[test]
fn test_solve_malformed_row() {
    let res = solve(Puzzle { horizontal: vec![vec![3]], vertical: vec![vec![1], vec![1]] });
    assert_eq!(res, Err(MalformedLine::Row(0)));
}

#[test]
fn test_solve_malformed_column() {
    let res = solve(Puzzle { horizontal: vec![vec![1]], vertical: vec![vec![5]] });
    assert_eq!(res, Err(MalformedLine::Column(0)));
}

#[test]
fn test_solve_unsat() {
    let res = solve(Puzzle { horizontal: vec![vec![2], vec![2]], vertical: vec![vec![1], vec![1]] });
    assert_eq!(res, Ok(None));
}

#[test]
fn test_solve_empty() {
    let res = solve(Puzzle { horizontal: vec![], vertical: vec![] });
    assert_eq!(res, Ok(Some(vec![])));
}

#[test]
fn test_solve_round_trip() {
    let horizontal = vec![vec![1], vec![3], vec![1]];
    let vertical = vec![vec![1], vec![3], vec![1]];
    let res = solve(Puzzle { horizontal: horizontal.clone(), vertical: vertical.clone() });
    let grid = res.unwrap().unwrap();
    assert_eq!(grid.len(), vertical.len());
    for (c, col) in grid.iter().enumerate() {
        assert_eq!(col.len(), horizontal.len());
        assert_eq!(runs_of(col), vertical[c]);
    }
    for r in 0..horizontal.len() {
        assert_eq!(runs_of(&row_cells(&grid, r)), horizontal[r]);
    }
}

#[test]
fn test_solve_larger() {
    // an S-shaped 5x5 picture
    let horizontal = vec![vec![5], vec![1], vec![5], vec![1], vec![5]];
    let vertical = vec![vec![3, 1], vec![1, 1, 1], vec![1, 1, 1], vec![1, 1, 1], vec![1, 3]];
    let res = solve(Puzzle { horizontal: horizontal.clone(), vertical: vertical.clone() });
    let grid = res.unwrap().unwrap();
    for (c, col) in grid.iter().enumerate() {
        assert_eq!(runs_of(col), vertical[c]);
    }
    for r in 0..horizontal.len() {
        assert_eq!(runs_of(&row_cells(&grid, r)), horizontal[r]);
    }
}

#[test]
fn test_solve_idempotent() {
    let mk = || Puzzle {
        horizontal: vec![vec![1, 1], vec![2], vec![1]],
        vertical: vec![vec![1, 1], vec![1], vec![2]],
    };
    let first = solve(mk());
    let second = solve(mk());
    assert_eq!(first, second);
    assert!(matches!(first, Ok(Some(_))));
}
