#![allow(unused_imports)]
use talek::error::PirError;

#[test]
fn test() {
    println!("here");
}
