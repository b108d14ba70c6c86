use kwik::genetic::{
    check_initial, check_population_size, collect_genes, tournament_winner, Fitness, FitnessOrd,
    GeneticError, GeneticResult, Genes, RunProgress,
};

#[derive(Clone, Debug, PartialEq)]
struct Config {
    genes: Vec<u32>,
}

impl Genes<u32> for Config {
    fn base(&self) -> Self {
        Config { genes: Vec::new() }
    }

    fn is_empty(&self) -> bool {
        self.genes.is_empty()
    }

    fn len(&self) -> usize {
        self.genes.len()
    }

    fn push(&mut self, gene: u32) {
        self.genes.push(gene);
    }

    fn clear(&mut self) {
        self.genes.clear();
    }

    fn get(&self, index: usize) -> &u32 {
        &self.genes[index]
    }

    fn is_valid(&self) -> bool {
        self.genes.iter().sum::<u32>() <= 100
    }

    fn is_optimal(&self) -> bool {
        self.genes.iter().sum::<u32>() == 100
    }
}

impl FitnessOrd for Config {
    fn fitness_cmp(&self, other: &Self) -> Fitness {
        let a = 100 - self.genes.iter().sum::<u32>() as i64;
        let b = 100 - other.genes.iter().sum::<u32>() as i64;

        if a.abs() < b.abs() {
            Fitness::Stronger
        } else if a.abs() > b.abs() {
            Fitness::Weaker
        } else {
            Fitness::Equal
        }
    }
}

#[test]
fn genetic_collects_genes_in_order() {
    let genes = collect_genes(vec![Some(10u32), Some(20), Some(30)]).unwrap();
    assert_eq!(genes, vec![10, 20, 30]);

    let template = Config { genes: vec![0, 0, 0] };
    let mut child = template.base();
    for gene in genes {
        child.push(gene);
    }
    assert_eq!(child.len(), template.len());
    assert!(child.is_valid());
    assert!(!child.is_optimal());
    assert_eq!(*child.get(1), 20);
}

#[test]
fn genetic_reports_missing_gene() {
    assert!(matches!(collect_genes(vec![Some(1u32), None]), Err(GeneticError::Internal)));
    assert!(matches!(collect_genes(Vec::<Option<u32>>::new()), Ok(v) if v.is_empty()));
}

#[test]
fn genetic_checks_initial_chromosome() {
    assert!(matches!(check_initial(true, true), Err(GeneticError::EmptyInitialChromosome)));
    assert!(matches!(check_initial(false, false), Err(GeneticError::InvalidInitialChromosome)));
    assert!(check_initial(false, true).is_ok());
    assert!(matches!(check_population_size(0), Err(GeneticError::InvalidPopulationSize)));
    assert!(check_population_size(100).is_ok());
}

#[test]
fn genetic_tournament_picks_fittest_sample() {
    assert_eq!(tournament_winner(&[7, 3, 9]), 3);
    assert_eq!(tournament_winner(&[5]), 5);
    assert_eq!(tournament_winner(&[]), 0);
}

#[test]
fn genetic_run_progress_counts_convergence() {
    let mut progress = RunProgress::start(4);
    assert!(progress.should_continue(false, 2, true));

    progress.record(3, true);
    assert_eq!(progress.convergence, 1);
    progress.record(0, true);
    assert_eq!(progress.convergence, 2);
    assert!(!progress.should_continue(false, 2, true));

    progress.record(1, false);
    assert_eq!(progress.convergence, 0);
    assert_eq!(progress.generations, 4);
    assert_eq!(progress.mutations, 8);

    assert!(!progress.should_continue(true, 2, true));
    assert!(!progress.should_continue(false, 2, false));
}

#[test]
fn genetic_result_holds_values() {
    let result = GeneticResult::new(Config { genes: vec![100] }, 12, 345);
    assert_eq!(result.genes().genes, vec![100]);
    assert_eq!(result.generations(), 12);
    assert_eq!(result.runtime(), 345);
}

#[test]
fn genetic_error_messages() {
    assert_eq!(GeneticError::InvalidInitialChromosome.message(), "invalid initial chromosome");
    assert_eq!(GeneticError::MateTimeout.message(), "could not create valid offspring");
}

#[test]
fn genetic_fitness_compares() {
    let a = Config { genes: vec![50, 40] };
    let b = Config { genes: vec![10] };
    assert_eq!(a.fitness_cmp(&b), Fitness::Stronger);
    assert_eq!(b.fitness_cmp(&a), Fitness::Weaker);
    assert_eq!(a.fitness_cmp(&a), Fitness::Equal);
}
