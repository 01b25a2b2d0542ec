use catalog_search::catalog::Catalog;
use catalog_search::product::Product;
use catalog_search::tokenizer::tokenize;

fn item(name: &str, brand: &str, category: &str) -> Product {
    Product {
        id: 0,
        name: name.to_string(),
        brand: brand.to_string(),
        category: category.to_string(),
        description: None,
    }
}

#[test]
fn test_busca_produto_existente() {
    let mut catalog = Catalog::new();
    catalog.add_product(item("Notebook Dell", "Dell", "Eletrônicos"));

    let found = catalog.search_exact_name("Notebook Dell");
    assert_eq!(found.len(), 1);
    assert_eq!(found[0].category, "Eletrônicos");
}

#[test]
fn tokenize_splits_on_non_word_runs() {
    let toks = tokenize("Notebook Dell-15_Pro!!  Usado");
    assert_eq!(toks, vec!["notebook", "dell", "15_pro", "usado"]);
}

#[test]
fn tokenize_only_punctuation_is_empty() {
    let toks = tokenize("!!! ---  ...");
    assert!(toks.is_empty());
}

#[test]
fn tokenize_keeps_unicode_letters() {
    let toks = tokenize("Ração Golden");
    assert_eq!(toks, vec!["ração", "golden"]);
}

#[test]
fn token_and_semantics() {
    let mut catalog = Catalog::new();
    let a = catalog.add_product(item("Notebook Dell Inspiron 15", "Dell", "Eletrônicos"));
    let b = catalog.add_product(item("Capa para Notebook 15", "AcessoriosPro", "Acessórios"));

    let both = catalog.search_tokens("notebook 15");
    let ids: Vec<usize> = both.iter().map(|p| p.id).collect();
    assert_eq!(ids, vec![a, b]);

    let only_dell = catalog.search_tokens("dell 15");
    let ids: Vec<usize> = only_dell.iter().map(|p| p.id).collect();
    assert_eq!(ids, vec![a]);
}

#[test]
fn token_search_matches_brand_and_category() {
    let mut catalog = Catalog::new();
    let a = catalog.add_product(item("Camiseta Polo", "MarcaX", "Vestuário"));
    catalog.add_product(item("Ração Golden Adulto", "Golden", "Pet Shop"));

    let by_brand = catalog.search_tokens("marcax");
    assert_eq!(by_brand.len(), 1);
    assert_eq!(by_brand[0].id, a);

    let by_category = catalog.search_tokens("RAÇÃO");
    assert_eq!(by_category.len(), 1);
    assert_eq!(by_category[0].name, "Ração Golden Adulto");
}

#[test]
fn token_search_unmatched_token_is_empty() {
    let mut catalog = Catalog::new();
    catalog.add_product(item("Notebook Dell", "Dell", "Eletrônicos"));
    assert!(catalog.search_tokens("notebook inexistente").is_empty());
}

#[test]
fn prefix_ordering() {
    let mut catalog = Catalog::new();
    let xps = catalog.add_product(item("Notebook Dell XPS 13", "Dell", "Eletrônicos"));
    let inspiron = catalog.add_product(item("Notebook Dell Inspiron 15", "Dell", "Eletrônicos"));
    catalog.add_product(item("Camiseta Polo", "MarcaX", "Vestuário"));

    let found = catalog.search_prefix_ordered("notebook", 10);
    let ids: Vec<usize> = found.iter().map(|p| p.id).collect();
    assert_eq!(ids, vec![inspiron, xps]);
}

#[test]
fn prefix_limit_truncates() {
    let mut catalog = Catalog::new();
    catalog.add_product(item("Notebook Dell XPS 13", "Dell", "Eletrônicos"));
    catalog.add_product(item("Notebook Dell Inspiron 15", "Dell", "Eletrônicos"));

    let found = catalog.search_prefix_ordered("notebook", 1);
    assert_eq!(found.len(), 1);
    assert_eq!(found[0].name, "Notebook Dell Inspiron 15");
}

#[test]
fn prefix_ties_keep_insertion_order() {
    let mut catalog = Catalog::new();
    let first = catalog.add_product(item("Capa Skin", "A", "Acessórios"));
    let second = catalog.add_product(item("capa skin", "B", "Acessórios"));

    let found = catalog.search_prefix_ordered("capa", 10);
    let ids: Vec<usize> = found.iter().map(|p| p.id).collect();
    assert_eq!(ids, vec![first, second]);
}

#[test]
fn exact_name_is_case_insensitive() {
    let mut catalog = Catalog::new();
    catalog.add_product(item("Notebook Dell", "Dell", "Eletrônicos"));
    let found = catalog.search_exact_name("NOTEBOOK dell");
    assert_eq!(found.len(), 1);
    let missed = catalog.search_exact_name("Notebook HP");
    assert!(missed.is_empty());
}

#[test]
fn recommendation_symmetry() {
    let mut catalog = Catalog::new();
    let a = catalog.add_product(item("Notebook Dell", "Dell", "Eletrônicos"));
    let b = catalog.add_product(item("Capa para Notebook", "AcessoriosPro", "Acessórios"));
    catalog.add_recommendation_edge(a, b);

    let for_a: Vec<usize> = catalog.recommend_for(a, 100).iter().map(|p| p.id).collect();
    assert!(for_a.contains(&b));
    let for_b: Vec<usize> = catalog.recommend_for(b, 100).iter().map(|p| p.id).collect();
    assert!(for_b.contains(&a));
}

#[test]
fn recommendation_ranking_by_degree() {
    let mut catalog = Catalog::new();
    let n1 = catalog.add_product(item("Item Um", "M", "C"));
    let n2 = catalog.add_product(item("Item Dois", "M", "C"));
    let n3 = catalog.add_product(item("Item Tres", "M", "C"));
    let n4 = catalog.add_product(item("Item Quatro", "M", "C"));
    let n5 = catalog.add_product(item("Item Cinco", "M", "C"));
    catalog.add_recommendation_edge(n1, n2);
    catalog.add_recommendation_edge(n1, n5);
    catalog.add_recommendation_edge(n2, n3);
    catalog.add_recommendation_edge(n2, n4);

    // neighbors of n1 are n2 (degree 3) and n5 (degree 1)
    let recs: Vec<usize> = catalog.recommend_for(n1, 10).iter().map(|p| p.id).collect();
    assert_eq!(recs, vec![n2, n5]);
}

#[test]
fn recommendation_limit_truncates() {
    let mut catalog = Catalog::new();
    let n1 = catalog.add_product(item("Item Um", "M", "C"));
    let n2 = catalog.add_product(item("Item Dois", "M", "C"));
    let n3 = catalog.add_product(item("Item Tres", "M", "C"));
    catalog.add_recommendation_edge(n1, n2);
    catalog.add_recommendation_edge(n1, n3);
    catalog.add_recommendation_edge(n2, n3);

    let recs = catalog.recommend_for(n1, 1);
    assert_eq!(recs.len(), 1);
}

#[test]
fn recommendation_drops_unknown_ids() {
    let mut catalog = Catalog::new();
    let a = catalog.add_product(item("Notebook Dell", "Dell", "Eletrônicos"));
    catalog.add_recommendation_edge(a, 99);
    let recs = catalog.recommend_for(a, 10);
    assert!(recs.is_empty());

    // the inert edge stays symmetric: once 99 exists it resolves
    let recs_for_unknown: Vec<usize> =
        catalog.recommend_for(99, 10).iter().map(|p| p.id).collect();
    assert_eq!(recs_for_unknown, vec![a]);
}

#[test]
fn id_monotonicity() {
    let mut catalog = Catalog::new();
    let a = catalog.add_product(item("Um", "M", "C"));
    let b = catalog.add_product(item("Dois", "M", "C"));
    let c = catalog.add_product(item("Tres", "M", "C"));
    assert_eq!(a, 1);
    assert_eq!(b, 2);
    assert_eq!(c, 3);
}

#[test]
fn idempotent_relations() {
    let mut once = Catalog::new();
    let a1 = once.add_product(item("Um", "M", "C"));
    let b1 = once.add_product(item("Dois", "M", "C"));
    once.add_recommendation_edge(a1, b1);

    let mut twice = Catalog::new();
    let a2 = twice.add_product(item("Um", "M", "C"));
    let b2 = twice.add_product(item("Dois", "M", "C"));
    twice.add_recommendation_edge(a2, b2);
    twice.add_recommendation_edge(a2, b2);

    let r1: Vec<usize> = once.recommend_for(a1, 10).iter().map(|p| p.id).collect();
    let r2: Vec<usize> = twice.recommend_for(a2, 10).iter().map(|p| p.id).collect();
    assert_eq!(r1, r2);
    let s1: Vec<usize> = once.recommend_for(b1, 10).iter().map(|p| p.id).collect();
    let s2: Vec<usize> = twice.recommend_for(b2, 10).iter().map(|p| p.id).collect();
    assert_eq!(s1, s2);
}

#[test]
fn self_relation_is_a_no_op() {
    let mut catalog = Catalog::new();
    let a = catalog.add_product(item("Um", "M", "C"));
    catalog.add_recommendation_edge(a, a);
    assert!(catalog.recommend_for(a, 10).is_empty());
}

#[test]
fn empty_query_safety() {
    let mut catalog = Catalog::new();
    catalog.add_product(item("Notebook Dell", "Dell", "Eletrônicos"));
    assert!(catalog.search_tokens("").is_empty());
    assert!(catalog.search_prefix_ordered("", 0).is_empty());
}

#[test]
fn empty_prefix_matches_everything() {
    let mut catalog = Catalog::new();
    catalog.add_product(item("Beta", "M", "C"));
    catalog.add_product(item("Alfa", "M", "C"));
    let found = catalog.search_prefix_ordered("", 10);
    let names: Vec<&str> = found.iter().map(|p| p.name.as_str()).collect();
    assert_eq!(names, vec!["Alfa", "Beta"]);
}
