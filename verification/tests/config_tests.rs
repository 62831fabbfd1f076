use bitcoin_node::config::Config;
use bitcoin_node::error::CustomError;

#[test]
fn config_con_formato_invalido() {
    let content = "KEY".as_bytes();
    let config = Config::from_reader(content);
    assert!(config.is_err());
    assert!(matches!(config, Err(CustomError::ConfigInvalid)));
}

#[test]
fn config_con_valores_faltantes() {
    let content = "SEED=seed.test\n".as_bytes();
    let config = Config::from_reader(content);
    assert!(config.is_err());
    assert!(matches!(config, Err(CustomError::ConfigMissingValue)));
}

#[test]
fn config_con_valor_vacio() {
    let content = "SEED=\n\
    PROTOCOL_VERSION=1234\n\
    LOG=log.txt\n\
    NPEERS=5\n\
    PORT=4321\n\
    CLIENT_ONLY=false\n\
    STORE_PATH=store"
        .as_bytes();
    let config = Config::from_reader(content);
    assert!(config.is_err());
    assert!(matches!(config, Err(CustomError::ConfigMissingValue)));
}

#[test]
fn config_con_valores_requeridos() -> Result<(), CustomError> {
    let content = "SEED=seed.test\n\
    PROTOCOL_VERSION=7000\n\
    LOG=log.txt\n\
    NPEERS=5\n\
    PORT=4321\n\
    CLIENT_ONLY=true\n\
    STORE_PATH=custom"
        .as_bytes();
    let config = Config::from_reader(content)?;
    assert_eq!(7000, config.protocol_version);
    assert_eq!("seed.test", config.seed);
    assert_eq!(5, config.npeers);
    assert_eq!("log.txt", config.log_file);
    assert_eq!(4321, config.port);
    assert_eq!(true, config.client_only);
    assert_eq!("custom", config.store_path);

    let content = "SEED=seed.test\n\
    PROTOCOL_VERSION=7000\n\
    LOG=log.txt\n\
    NPEERS=5\n\
    PORT=4321"
        .as_bytes();
    let config = Config::from_reader(content)?;
    assert_eq!(7000, config.protocol_version);
    assert_eq!("seed.test", config.seed);
    assert_eq!(5, config.npeers);
    assert_eq!("log.txt", config.log_file);
    assert_eq!(4321, config.port);
    assert_eq!(false, config.client_only);
    assert_eq!("store", config.store_path);

    Ok(())
}

#[test]
fn config_con_valores_de_mas() -> Result<(), CustomError> {
    let content = "SEED=seed.test\n\
    VALOR_NO_REQUERIDO=1234\n\
    PROTOCOL_VERSION=7000\n\
    LOG=log.txt\n\
    NPEERS=5\n\
    PORT=4321\n\
    CLIENT_ONLY=true\n\
    STORE_PATH=custom"
        .as_bytes();
    let config = Config::from_reader(content)?;
    assert_eq!(7000, config.protocol_version);
    assert_eq!("seed.test", config.seed);
    assert_eq!(5, config.npeers);
    assert_eq!("log.txt", config.log_file);
    assert_eq!(4321, config.port);
    assert_eq!(true, config.client_only);
    assert_eq!("custom", config.store_path);

    let content = "SEED=seed.test\n\
    VALOR_NO_REQUERIDO=\n\
    PROTOCOL_VERSION=7000\n\
    LOG=log.txt\n\
    NPEERS=5\n\
    PORT=4321\n\
    CLIENT_ONLY=true\n\
    STORE_PATH=custom"
        .as_bytes();
    let config = Config::from_reader(content)?;
    assert_eq!(7000, config.protocol_version);
    assert_eq!("seed.test", config.seed);
    assert_eq!(5, config.npeers);
    assert_eq!("log.txt", config.log_file);
    assert_eq!(4321, config.port);
    assert_eq!(true, config.client_only);
    assert_eq!("custom", config.store_path);
    Ok(())
}
