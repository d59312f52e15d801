//! The size of the core with 256 words of RAM.

use ryzr::compile::Compiled;
use ryzr::cpu::build_cpu;
use ryzr::fuse::find_chains;
use ryzr::programs;

#[test]
fn a_core_with_256_words_of_ram() {
    let circuit = build_cpu(&programs::fib_forever(), 256);
    let gates = format!("{:?}", circuit.insts).matches("Gate {").count();
    assert_eq!(gates, 22_679);
    assert_eq!(circuit.register_count, 9_216);
    let tape = Compiled::new(&circuit);
    assert_eq!(tape.levels.len(), 88);
    let (chains, used) = find_chains(&tape);
    let links: usize = chains.iter().map(|c| c.links.len()).sum();
    let absorbed = used.iter().filter(|&&u| u).count();
    assert_eq!((chains.len(), links, absorbed), (4, 120, 486));
}
