use vstd::prelude::*;

use crate::fmt::{push_str, string_from_chars};

verus! {

/// Why a genetic run could not go on.
#[derive(Debug)]
pub enum GeneticError {
    EmptyInitialChromosome,
    InvalidInitialChromosome,
    InvalidPopulationSize,
    InitialPopulationTimeout,
    MateTimeout,
    Internal,
}

impl GeneticError {
    /// The error's message.
    pub open spec fn message_text(e: GeneticError) -> Seq<char> {
        match e {
            GeneticError::EmptyInitialChromosome => "empty initial chromosome"@,
            GeneticError::InvalidInitialChromosome => "invalid initial chromosome"@,
            GeneticError::InvalidPopulationSize => "invalid population size"@,
            GeneticError::InitialPopulationTimeout => "could not create initial population"@,
            GeneticError::MateTimeout => "could not create valid offspring"@,
            GeneticError::Internal => "an internal error occurred"@,
        }
    }

    /// Returns the error's message.
    pub fn message(&self) -> (s: String)
        ensures
            s@ == Self::message_text(*self),
    {
        let mut out: Vec<char> = Vec::new();
        match self {
            GeneticError::EmptyInitialChromosome => push_str(&mut out, "empty initial chromosome"),
            GeneticError::InvalidInitialChromosome => push_str(
                &mut out,
                "invalid initial chromosome",
            ),
            GeneticError::InvalidPopulationSize => push_str(&mut out, "invalid population size"),
            GeneticError::InitialPopulationTimeout => push_str(
                &mut out,
                "could not create initial population",
            ),
            GeneticError::MateTimeout => push_str(&mut out, "could not create valid offspring"),
            GeneticError::Internal => push_str(&mut out, "an internal error occurred"),
        }
        proof {
            assert(out@ =~= Self::message_text(*self));
        }
        string_from_chars(&out)
    }
}

/// How one chromosome's fitness compares with another's.
#[derive(PartialEq, Eq, Structural, Clone, Copy, Debug)]
pub enum Fitness {
    Stronger,
    Weaker,
    Equal,
}

/// Compares the fitness of two values: `Stronger` when `self` is the
/// fitter of the two.
pub trait FitnessOrd {
    fn fitness_cmp(&self, other: &Self) -> Fitness;
}

/// A sequence of genes that a genetic run evolves, kept by the user's own
/// type.
pub trait Genes<G>: Sized {
    /// Returns an empty sequence of the same kind.
    fn base(&self) -> Self;

    /// Returns `true` if the sequence holds no gene.
    fn is_empty(&self) -> bool;

    /// Returns the number of genes.
    fn len(&self) -> usize;

    /// Appends a gene.
    fn push(&mut self, gene: G);

    /// Removes every gene.
    fn clear(&mut self);

    /// Returns the gene at `index`.
    fn get(&self, index: usize) -> &G;

    /// Returns `true` if the sequence is an acceptable solution. Unless a
    /// type says otherwise, every sequence is.
    fn is_valid(&self) -> (r: bool)
        default_ensures
            r,
    {
        true
    }

    /// Returns `true` if the sequence cannot be improved on.
    fn is_optimal(&self) -> bool;
}

/// Whether every slot holds a gene.
pub open spec fn all_filled<G>(slots: Seq<Option<G>>) -> bool {
    forall|i: int| 0 <= i < slots.len() ==> (#[trigger] slots[i]) is Some
}

/// The genes of filled slots, in order.
pub open spec fn filled_genes<G>(slots: Seq<Option<G>>) -> Seq<G> {
    slots.map_values(|s: Option<G>| s->0)
}

/// Takes the genes out of `slots`, in slot order, to be assembled into a
/// new chromosome.
///
/// # Errors
///
/// Returns `GeneticError::Internal` if a slot holds no gene.
pub fn collect_genes<G>(slots: Vec<Option<G>>) -> (r: Result<Vec<G>, GeneticError>)
    ensures
        all_filled(slots@) ==> (r matches Ok(genes) && genes@ == filled_genes(slots@)),
        !all_filled(slots@) ==> r matches Err(GeneticError::Internal),
{
    let mut genes: Vec<G> = Vec::new();
    let mut work = slots;
    let ghost all = work@;
    let n = work.len();
    let mut i: usize = 0;
    while i < n
        invariant
            n == all.len(),
            i <= n,
            all == slots@,
            work@.len() == n,
            forall|k: int| i <= k < n ==> work@[k] == all[k],
            forall|k: int| 0 <= k < i ==> (#[trigger] all[k]) is Some,
            genes@ == filled_genes(all.take(i as int)),
        decreases n - i,
    {
        let slot = work[i].take();
        match slot {
            Some(gene) => {
                proof {
                    assert(filled_genes(all.take(i + 1)) =~= filled_genes(all.take(i as int)).push(
                        gene,
                    ));
                }
                genes.push(gene);
            },
            None => {
                proof {
                    assert(all[i as int] is None);
                }
                return Err(GeneticError::Internal);
            },
        }
        i = i + 1;
    }
    proof {
        assert(all.take(n as int) =~= all);
    }
    Ok(genes)
}

/// Checks that a chromosome can seed a genetic run: it must hold at least
/// one gene and be valid.
///
/// # Errors
///
/// Returns `GeneticError::EmptyInitialChromosome` if it is empty, else
/// `GeneticError::InvalidInitialChromosome` if it is not valid.
pub fn check_initial(is_empty: bool, is_valid: bool) -> (r: Result<(), GeneticError>)
    ensures
        is_empty ==> r matches Err(GeneticError::EmptyInitialChromosome),
        !is_empty && !is_valid ==> r matches Err(GeneticError::InvalidInitialChromosome),
        !is_empty && is_valid ==> r is Ok,
{
    if is_empty {
        return Err(GeneticError::EmptyInitialChromosome);
    }
    if !is_valid {
        return Err(GeneticError::InvalidInitialChromosome);
    }
    Ok(())
}

/// Checks a population size: it must not be zero.
///
/// # Errors
///
/// Returns `GeneticError::InvalidPopulationSize` if it is zero.
pub fn check_population_size(population_size: usize) -> (r: Result<(), GeneticError>)
    ensures
        population_size == 0 <==> r matches Err(GeneticError::InvalidPopulationSize),
        population_size != 0 <==> r is Ok,
{
    if population_size == 0 {
        return Err(GeneticError::InvalidPopulationSize);
    }
    Ok(())
}

/// The smallest of the sampled indexes, or 0 when none was sampled.
pub open spec fn tournament_min(samples: Seq<usize>) -> usize
    decreases samples.len(),
{
    if samples.len() == 0 {
        0
    } else if samples.len() == 1 {
        samples[0]
    } else {
        let m = tournament_min(samples.drop_last());
        if samples.last() < m {
            samples.last()
        } else {
            m
        }
    }
}

/// Picks the winner of a tournament among sampled population indexes. The
/// population is sorted fittest first, so the winner is the smallest
/// index; with no sample the winner is the fittest individual, index 0.
pub fn tournament_winner(samples: &[usize]) -> (r: usize)
    ensures
        r == tournament_min(samples@),
        samples@.len() == 0 ==> r == 0,
        samples@.len() > 0 ==> samples@.contains(r),
        forall|i: int| 0 <= i < samples@.len() ==> r <= #[trigger] samples@[i],
{
    let n = samples.len();
    if n == 0 {
        return 0;
    }
    let mut best = samples[0];
    let mut i: usize = 1;
    proof {
        assert(samples@.take(1).drop_last() =~= Seq::<usize>::empty());
        assert(samples@.take(1)[0] == best);
    }
    while i < n
        invariant
            1 <= i <= n,
            n == samples@.len(),
            best == tournament_min(samples@.take(i as int)),
            samples@.take(i as int).contains(best),
            forall|k: int| 0 <= k < i ==> best <= #[trigger] samples@[k],
        decreases n - i,
    {
        proof {
            let t = samples@.take(i + 1);
            assert(t.drop_last() =~= samples@.take(i as int));
            assert(t.last() == samples@[i as int]);
        }
        if samples[i] < best {
            best = samples[i];
            proof {
                assert(samples@.take(i + 1)[i as int] == best);
            }
        } else {
            proof {
                let j = choose|j: int| 0 <= j < i && samples@.take(i as int)[j] == best;
                assert(samples@.take(i + 1)[j] == best);
            }
        }
        i = i + 1;
    }
    proof {
        assert(samples@.take(n as int) =~= samples@);
    }
    best
}

/// The bookkeeping of a genetic run: how many generations were bred, for
/// how many generations in a row the fittest individual stayed the same,
/// and how many mutations happened in all.
pub struct RunProgress {
    pub generations: u64,
    pub convergence: u64,
    pub mutations: u64,
}

impl RunProgress {
    /// A run has converged for fewer generations than it has bred.
    pub open spec fn wf(&self) -> bool {
        self.convergence < self.generations
    }

    /// The progress after the first generation, in which `mutations`
    /// mutations happened.
    pub fn start(mutations: u64) -> (r: RunProgress)
        ensures
            r.wf(),
            r.generations == 1,
            r.convergence == 0,
            r.mutations == mutations,
    {
        RunProgress { generations: 1, convergence: 0, mutations }
    }

    /// Whether another generation is due: the fittest individual is not
    /// optimal, the population has not yet converged for `limit`
    /// generations, and time is left.
    pub fn should_continue(&self, fittest_is_optimal: bool, limit: u64, time_left: bool) -> (r:
        bool)
        ensures
            r == (!fittest_is_optimal && self.convergence < limit && time_left),
    {
        !fittest_is_optimal && self.convergence < limit && time_left
    }

    /// Records a newly bred generation, in which `mutations` mutations
    /// happened and whose fittest individual is as fit as the last one
    /// (`same_fittest`) or not.
    pub fn record(&mut self, mutations: u64, same_fittest: bool)
        requires
            old(self).wf(),
            old(self).generations < u64::MAX,
            old(self).mutations + mutations <= u64::MAX,
        ensures
            final(self).wf(),
            final(self).generations == old(self).generations + 1,
            final(self).mutations == old(self).mutations + mutations,
            final(self).convergence == if same_fittest {
                old(self).convergence + 1
            } else {
                0
            },
    {
        self.mutations = self.mutations + mutations;
        if same_fittest {
            self.convergence = self.convergence + 1;
        } else {
            self.convergence = 0;
        }
        self.generations = self.generations + 1;
    }
}

/// The outcome of a genetic run: the best genes found, how many
/// generations were bred, and the run's length in milliseconds.
pub struct GeneticResult<GS> {
    genes: GS,
    generations: u64,
    runtime: u64,
}

impl<GS> GeneticResult<GS> {
    pub closed spec fn genes_spec(&self) -> GS {
        self.genes
    }

    pub closed spec fn generations_spec(&self) -> u64 {
        self.generations
    }

    pub closed spec fn runtime_spec(&self) -> u64 {
        self.runtime
    }

    /// Returns a result holding the supplied values.
    pub fn new(genes: GS, generations: u64, runtime: u64) -> (r: Self)
        ensures
            r.genes_spec() == genes,
            r.generations_spec() == generations,
            r.runtime_spec() == runtime,
    {
        GeneticResult { genes, generations, runtime }
    }

    /// Returns the best genes found.
    pub fn genes(&self) -> (r: &GS)
        ensures
            *r == self.genes_spec(),
    {
        &self.genes
    }

    /// Returns the number of generations bred.
    pub fn generations(&self) -> (r: u64)
        ensures
            r == self.generations_spec(),
    {
        self.generations
    }

    /// Returns the run's length in milliseconds.
    pub fn runtime(&self) -> (r: u64)
        ensures
            r == self.runtime_spec(),
    {
        self.runtime
    }
}

} // verus!
