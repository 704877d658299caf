use json_key_remover::KeyRemover;

fn get_sample_json_string() -> String {
    let str = "{
            \"key_0\": {
              \"key_0_0\": \"val_0_0\",
              \"key_0_1\": \"val_0_1\",
              \"key_0_2\": {
                \"key_0_2_0\": [
                  {
                    \"key_0_2_0_0\": \"val_0_2_0_0\",
                    \"key_0_2_0_1\": \"val_0_2_0_1\"
                  },
                  {
                    \"key_0_2_1_0\": \"val_0_2_1_0\",
                    \"key_0_2_1_1\": \"val_0_2_1_1\"
                  },
                  {
                    \"key_0_2_2_0\": \"val_0_2_2_0\",
                    \"key_0_2_2_1\": \"val_0_2_2_1\"
                  }
                ]
              }
            }
          }";

    str.to_string()
}

#[test]
fn test_1() {
    let sample_json_string = get_sample_json_string();
    let cloned_input_string = sample_json_string.clone();
    let mut key_remover = KeyRemover::init(128, vec!["key_0_2_0".to_string()]);

    let input = sample_json_string.as_bytes();
    let mut output: Vec<u8> = Vec::new();
    let mut pos = 0;
    while pos < input.len() {
        let end = (pos + 128).min(input.len());
        key_remover.process(&input[pos..end], &mut output).unwrap();
        pos = end;
    }
    key_remover.process(&[], &mut output).unwrap();

    println!("# Input");
    println!("{:?}", cloned_input_string);
    println!("# Output");
    println!("{:?}", String::from_utf8(output).unwrap());
}
