use product_registry::registry::Product;

fn paul() -> String {
    "Paul".to_string()
}

#[test]
fn set_then_get_product() {
    let mut contract = Product::new(paul());

    contract
        .set_products(&paul(), "0x1".to_string(), "PS4 x".to_string(), 800, 100)
        .unwrap();

    let result = contract.get_products("0x1".to_string());

    let val = match result {
        Some(x) => {
            println!("Result: name:{}, price:{}, stock:{}", x.name, x.price, x.stock);
            x.price
        }
        None => {
            println!("Not Exists");
            0
        }
    };

    assert_eq!(800, val);
}

#[test]
fn get_default_product() {
    let contract = Product::new(paul());

    let result = contract.get_products("0x1".to_string());

    let val = match result {
        Some(x) => {
            println!("Result: name:{}, price:{}, stock:{}", x.name, x.price, x.stock);
            x.price
        }
        None => {
            println!("Not Exists");
            0
        }
    };

    assert_eq!(0, val);
}

#[test]
fn set_delete_product() {
    let mut contract = Product::new(paul());

    contract
        .set_products(&paul(), "0x11".to_string(), "PS5".to_string(), 12345, 12)
        .unwrap();

    contract.delete_products(&paul(), "0x11".to_string()).unwrap();

    let result = contract.get_products("0x11".to_string());

    let val = match result {
        Some(x) => {
            println!("Result: name:{}, price:{}, stock:{}", x.name, x.price, x.stock);
            x.price
        }
        None => {
            println!("Not Exists");
            0
        }
    };

    assert_eq!(0, val);
}

#[test]
fn update_get_product() {
    let mut contract = Product::new(paul());

    contract
        .set_products(&paul(), "0x1".to_string(), "PS5".to_string(), 500, 12)
        .unwrap();

    contract
        .set_products(&paul(), "0x1".to_string(), "PS5".to_string(), 1200, 7)
        .unwrap();

    let result = contract.get_products("0x1".to_string());

    let val = match result {
        Some(x) => {
            println!("Result: name:{}, price:{}, stock:{}", x.name, x.price, x.stock);
            x.stock
        }
        None => {
            println!("Not Exists");
            0
        }
    };

    assert_eq!(7, val);
}
