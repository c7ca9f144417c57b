//! The interface every algorithm offers, and the registry that collects them.
use vstd::prelude::*;

use crate::miller_rabin::{
    lemma_primes_pass, miller_rabin_name, miller_rabin_spec, MillerRabinAlgorithm,
};
use crate::primes::is_prime_spec;
use crate::sieve::{sieve_name, SieveAlgorithm};
use crate::zeta::{zeta_name, ZetaAlgorithm};

verus! {

/// A primality test: a name to find it by, and a verdict on each number.
pub trait PrimalityTest {
    /// The name, as characters.
    spec fn spec_name(&self) -> Seq<char>;

    /// The verdict of the test on `n`.
    spec fn verdict(&self, n: nat) -> bool;

    /// The name under which the registry finds this algorithm.
    fn name(&self) -> (r: &'static str)
        ensures
            r@ == self.spec_name(),
    ;

    /// Whether the test declares `n` prime. No prime is ever declared
    /// composite.
    fn is_prime(&self, n: u64) -> (r: bool)
        ensures
            r == self.verdict(n as nat),
            is_prime_spec(n as nat) ==> r,
    ;
}

/// One of the algorithms of this crate.
#[derive(Clone, Copy, Debug)]
pub enum Algorithm {
    Sieve(SieveAlgorithm),
    MillerRabin(MillerRabinAlgorithm),
    Zeta(ZetaAlgorithm),
}

impl PrimalityTest for Algorithm {
    open spec fn spec_name(&self) -> Seq<char> {
        match self {
            Algorithm::Sieve(a) => a.spec_name(),
            Algorithm::MillerRabin(a) => a.spec_name(),
            Algorithm::Zeta(a) => a.spec_name(),
        }
    }

    open spec fn verdict(&self, n: nat) -> bool {
        match self {
            Algorithm::Sieve(a) => a.verdict(n),
            Algorithm::MillerRabin(a) => a.verdict(n),
            Algorithm::Zeta(a) => a.verdict(n),
        }
    }

    fn name(&self) -> (r: &'static str) {
        match self {
            Algorithm::Sieve(a) => a.name(),
            Algorithm::MillerRabin(a) => a.name(),
            Algorithm::Zeta(a) => a.name(),
        }
    }

    fn is_prime(&self, n: u64) -> (r: bool) {
        match self {
            Algorithm::Sieve(a) => a.is_prime(n),
            Algorithm::MillerRabin(a) => a.is_prime(n),
            Algorithm::Zeta(a) => a.is_prime(n),
        }
    }
}

/// The first algorithm in `algs` named `name`, if any.
pub open spec fn lookup(algs: Seq<Algorithm>, name: Seq<char>) -> Option<Algorithm>
    decreases algs.len(),
{
    if algs.len() == 0 {
        None
    } else if algs[0].spec_name() == name {
        Some(algs[0])
    } else {
        lookup(algs.drop_first(), name)
    }
}

/// The algorithms of `with_all_algorithms`, in order.
pub open spec fn standard_algorithms() -> Seq<Algorithm> {
    seq![
        Algorithm::Sieve(SieveAlgorithm),
        Algorithm::MillerRabin(MillerRabinAlgorithm),
        Algorithm::Zeta(ZetaAlgorithm),
    ]
}

/// Whether two strings hold the same characters.
fn same_text(a: &str, b: &str) -> (r: bool)
    ensures
        r == (a@ == b@),
{
    let x = a.to_owned();
    let y = b.to_owned();
    x == y
}

/// An ordered collection of algorithms, appended to and searched by name.
pub struct PrimalityRegistry {
    algorithms: Vec<Algorithm>,
}

impl View for PrimalityRegistry {
    type V = Seq<Algorithm>;

    closed spec fn view(&self) -> Seq<Algorithm> {
        self.algorithms@
    }
}

impl PrimalityRegistry {
    /// An empty registry.
    pub fn new() -> (r: Self)
        ensures
            r@ == Seq::<Algorithm>::empty(),
    {
        PrimalityRegistry { algorithms: Vec::new() }
    }

    /// A registry holding trial division, the witness test and the spectral
    /// test, in that order.
    pub fn with_all_algorithms() -> (r: Self)
        ensures
            r@ == standard_algorithms(),
    {
        let mut registry = PrimalityRegistry::new();
        registry.register(Algorithm::Sieve(SieveAlgorithm));
        registry.register(Algorithm::MillerRabin(MillerRabinAlgorithm));
        registry.register(Algorithm::Zeta(ZetaAlgorithm));
        assert(registry@ =~= standard_algorithms());
        registry
    }

    /// Appends `algo`; nothing is checked or removed.
    pub fn register(&mut self, algo: Algorithm)
        ensures
            final(self)@ == old(self)@.push(algo),
    {
        self.algorithms.push(algo);
    }

    /// The registered algorithms, in the order they were registered.
    pub fn algorithms(&self) -> (r: &[Algorithm])
        ensures
            r@ == self@,
    {
        self.algorithms.as_slice()
    }

    /// The first registered algorithm named `name`, if any.
    pub fn get_by_name(&self, name: &str) -> (r: Option<&Algorithm>)
        ensures
            match r {
                Some(a) => lookup(self@, name@) == Some(*a),
                None => lookup(self@, name@) is None,
            },
    {
        let mut i: usize = 0;
        assert(self@.subrange(0, self@.len() as int) =~= self@);
        while i < self.algorithms.len()
            invariant
                i <= self@.len(),
                lookup(self@, name@) == lookup(self@.subrange(i as int, self@.len() as int), name@),
            decreases self@.len() - i,
        {
            let ghost rest = self@.subrange(i as int, self@.len() as int);
            assert(rest[0] == self@[i as int]);
            if same_text(self.algorithms[i].name(), name) {
                return Some(&self.algorithms[i]);
            }
            assert(rest.drop_first() =~= self@.subrange(i + 1, self@.len() as int));
            i = i + 1;
        }
        None
    }
}

impl Default for PrimalityRegistry {
    fn default() -> (r: Self)
        ensures
            r@ == Seq::<Algorithm>::empty(),
    {
        Self::new()
    }
}

/// The standard registry holds three algorithms with distinct names, and a
/// lookup by the name of each finds that algorithm.
pub proof fn lemma_standard_names_resolve()
    ensures
        standard_algorithms().len() == 3,
        forall|i: int, j: int|
            0 <= i < 3 && 0 <= j < 3 && i != j ==> standard_algorithms()[i].spec_name()
                != standard_algorithms()[j].spec_name(),
        forall|i: int|
            0 <= i < 3 ==> lookup(standard_algorithms(), #[trigger] standard_algorithms()[i].spec_name())
                == Some(standard_algorithms()[i]),
{
    reveal_strlit("Sieve of Eratosthenes");
    reveal_strlit("Miller-Rabin");
    reveal_strlit("Riemann Zeta");
    let algs = standard_algorithms();
    assert(sieve_name().len() == 21);
    assert(miller_rabin_name().len() == 12);
    assert(zeta_name().len() == 12);
    assert(miller_rabin_name()[0] != zeta_name()[0]);
    assert(algs.drop_first() =~= seq![algs[1], algs[2]]);
    assert(algs.drop_first().drop_first() =~= seq![algs[2]]);
    assert(lookup(algs, algs[0].spec_name()) == Some(algs[0]));
    assert(algs[0].spec_name() != algs[1].spec_name());
    assert(algs[0].spec_name() != algs[2].spec_name());
    assert(algs[1].spec_name() != algs[2].spec_name());
    assert(lookup(algs.drop_first(), algs[1].spec_name()) == Some(algs[1]));
    assert(lookup(algs, algs[1].spec_name()) == Some(algs[1]));
    assert(lookup(algs.drop_first().drop_first(), algs[2].spec_name()) == Some(algs[2]));
    assert(lookup(algs.drop_first(), algs[2].spec_name()) == Some(algs[2]));
    assert(lookup(algs, algs[2].spec_name()) == Some(algs[2]));
}

/// No algorithm of the standard registry declares an even number above two
/// prime.
pub proof fn lemma_even_rejected_by_all(n: nat)
    requires
        n % 2 == 0,
        n > 2,
    ensures
        !is_prime_spec(n),
        !miller_rabin_spec(n),
        forall|i: int| 0 <= i < 3 ==> !#[trigger] standard_algorithms()[i].verdict(n),
{
    assert(n % 2 == 0);
}

/// Trial division and the spectral test reach the same verdict on every
/// number.
pub proof fn lemma_trial_and_spectral_agree(n: nat)
    ensures
        standard_algorithms()[0].verdict(n) == standard_algorithms()[2].verdict(n),
{
}

/// Every algorithm of the standard registry declares every prime prime.
pub proof fn lemma_primes_accepted_by_all(n: nat)
    requires
        is_prime_spec(n),
    ensures
        forall|i: int| 0 <= i < 3 ==> #[trigger] standard_algorithms()[i].verdict(n),
{
    lemma_primes_pass(n);
}

} // verus!
