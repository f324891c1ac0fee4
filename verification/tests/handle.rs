use diecast::handle::{handle_if, Chain, Error, Handle};

struct Add(i64);

impl Handle<i64> for Add {
    fn handle(&self, target: &mut i64) -> Result<(), Error> {
        *target += self.0;
        Ok(())
    }
}

struct FailAbove(i64);

impl Handle<i64> for FailAbove {
    fn handle(&self, target: &mut i64) -> Result<(), Error> {
        if *target > self.0 {
            Err(Error::new("too large"))
        } else {
            Ok(())
        }
    }
}

#[test]
fn chain_runs_handlers_in_order() {
    let chain = Chain::new().link(Add(1)).link(Add(10)).link(Add(100));
    let mut value = 0;
    chain.handle(&mut value).unwrap();
    assert_eq!(value, 111);
}

#[test]
fn chain_stops_at_the_first_failure() {
    let chain = Chain::new().link(Add(5)).link(FailAbove(3)).link(Add(100));
    let mut value = 0;
    let result = chain.handle(&mut value);
    assert_eq!(result.err().unwrap().description(), "too large");
    assert_eq!(value, 5);
}

#[test]
fn empty_chain_does_nothing() {
    let chain: Chain<i64> = Chain::new();
    let mut value = 7;
    assert!(chain.handle(&mut value).is_ok());
    assert_eq!(value, 7);
}

#[test]
fn handle_if_runs_only_where_the_condition_holds() {
    let handler = handle_if(|v: &i64| *v % 2 == 0, Add(1));
    let mut even = 4;
    let mut odd = 3;
    handler.handle(&mut even).unwrap();
    handler.handle(&mut odd).unwrap();
    assert_eq!(even, 5);
    assert_eq!(odd, 3);
}
