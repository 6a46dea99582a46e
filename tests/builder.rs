use parquet_variant_builder::{
    MetadataBuilder, ShortString, Variant, VariantBuilder,
};

// A small reader for the two blobs, enough to check what the builders wrote.

fn read_le(bytes: &[u8], at: usize, n: usize) -> usize {
    let mut v: usize = 0;
    for i in 0..n {
        v |= (bytes[at + i] as usize) << (8 * i);
    }
    v
}

struct Meta {
    sorted: bool,
    names: Vec<String>,
}

fn read_metadata(m: &[u8]) -> Option<Meta> {
    if m.is_empty() || m[0] & 0x0F != 1 {
        return None;
    }
    let os = ((m[0] >> 6) & 3) as usize + 1;
    let n = read_le(m, 1, os);
    let offs_at = 1 + os;
    let data_at = offs_at + (n + 1) * os;
    let mut names = Vec::new();
    for i in 0..n {
        let a = read_le(m, offs_at + i * os, os);
        let b = read_le(m, offs_at + (i + 1) * os, os);
        names.push(String::from_utf8(m[data_at + a..data_at + b].to_vec()).ok()?);
    }
    Some(Meta { sorted: (m[0] >> 4) & 1 == 1, names })
}

fn read_value(names: &[String], v: &[u8]) -> Option<Variant> {
    let h = *v.first()?;
    match h & 3 {
        0 => {
            let p = &v[1..];
            Some(match h >> 2 {
                0 => Variant::Null,
                1 => Variant::BooleanTrue,
                2 => Variant::BooleanFalse,
                3 => Variant::Int8(p[0] as i8),
                4 => Variant::Int16(i16::from_le_bytes([p[0], p[1]])),
                5 => Variant::Int32(i32::from_le_bytes(p[..4].try_into().ok()?)),
                6 => Variant::Int64(i64::from_le_bytes(p[..8].try_into().ok()?)),
                7 => Variant::Double(u64::from_le_bytes(p[..8].try_into().ok()?)),
                11 => Variant::Date(i32::from_le_bytes(p[..4].try_into().ok()?)),
                14 => Variant::Float(u32::from_le_bytes(p[..4].try_into().ok()?)),
                15 => {
                    let n = read_le(p, 0, 4);
                    Variant::Binary(p[4..4 + n].to_vec())
                }
                16 => {
                    let n = read_le(p, 0, 4);
                    Variant::String(String::from_utf8(p[4..4 + n].to_vec()).ok()?)
                }
                _ => return None,
            })
        }
        1 => {
            let n = (h >> 2) as usize;
            Some(Variant::ShortString(ShortString(
                String::from_utf8(v[1..1 + n].to_vec()).ok()?,
            )))
        }
        2 => {
            let large = (h >> 6) & 1 == 1;
            let id_size = ((h >> 4) & 3) as usize + 1;
            let os = ((h >> 2) & 3) as usize + 1;
            let (n, at) = if large { (read_le(v, 1, 4), 5) } else { (v[1] as usize, 2) };
            let offs_at = at + n * id_size;
            let data_at = offs_at + (n + 1) * os;
            let mut fields = Vec::new();
            for i in 0..n {
                let id = read_le(v, at + i * id_size, id_size);
                let off = read_le(v, offs_at + i * os, os);
                fields.push((names.get(id)?.clone(), read_value(names, &v[data_at + off..])?));
            }
            Some(Variant::Object(fields))
        }
        _ => {
            let large = (h >> 4) & 1 == 1;
            let os = ((h >> 2) & 3) as usize + 1;
            let (n, at) = if large { (read_le(v, 1, 4), 5) } else { (v[1] as usize, 2) };
            let data_at = at + (n + 1) * os;
            let mut elems = Vec::new();
            for i in 0..n {
                let off = read_le(v, at + i * os, os);
                elems.push(read_value(names, &v[data_at + off..])?);
            }
            Some(Variant::List(elems))
        }
    }
}

fn decode(metadata: &[u8], value: &[u8]) -> Option<Variant> {
    let meta = read_metadata(metadata)?;
    read_value(&meta.names, value)
}

fn names_of(metadata: &[u8]) -> Vec<String> {
    read_metadata(metadata).unwrap().names
}

fn s(text: &str) -> Variant {
    Variant::from_str(text)
}

fn list_of(v: Variant) -> Vec<Variant> {
    match v {
        Variant::List(elems) => elems,
        other => panic!("Expected an array variant, got: {other:?}"),
    }
}

fn object_of(v: Variant) -> Vec<(String, Variant)> {
    match v {
        Variant::Object(fields) => fields,
        other => panic!("Expected an object variant, got: {other:?}"),
    }
}

fn get<'a>(fields: &'a [(String, Variant)], key: &str) -> Option<&'a Variant> {
    fields.iter().find(|(k, _)| k == key).map(|(_, v)| v)
}

fn field_names(fields: &[(String, Variant)]) -> Vec<&str> {
    fields.iter().map(|(k, _)| k.as_str()).collect()
}

fn build_one(v: Variant) -> Variant {
    let mut builder = VariantBuilder::new();
    builder.append_value(v);
    let (metadata, value) = builder.finish();
    decode(&metadata, &value).unwrap()
}

#[test]
fn test_simple_usage() {
    assert_eq!(build_one(Variant::Null), Variant::Null);
    assert_eq!(build_one(Variant::from_bool(true)), Variant::BooleanTrue);
    assert_eq!(build_one(Variant::from_bool(false)), Variant::BooleanFalse);
    assert_eq!(build_one(Variant::Int8(42)), Variant::Int8(42));
    assert_eq!(build_one(Variant::Int16(1234)), Variant::Int16(1234));
    assert_eq!(build_one(Variant::Int32(123456)), Variant::Int32(123456));
    assert_eq!(build_one(Variant::Int64(123456789)), Variant::Int64(123456789));
    assert_eq!(
        build_one(Variant::Float(1.5f32.to_bits())),
        Variant::Float(1.5f32.to_bits())
    );
    assert_eq!(
        build_one(Variant::Double(2.5f64.to_bits())),
        Variant::Double(2.5f64.to_bits())
    );
    assert_eq!(
        build_one(s("hello")),
        Variant::ShortString(ShortString("hello".to_string()))
    );
    let long_string = "This is a very long string that exceeds the short string limit of 63 bytes and should be encoded as a regular string type instead of a short string";
    assert_eq!(build_one(s(long_string)), Variant::String(long_string.to_string()));
    let binary_data = b"binary data";
    assert_eq!(
        build_one(Variant::Binary(binary_data.to_vec())),
        Variant::Binary(binary_data.to_vec())
    );
}

#[test]
fn test_list() {
    let mut builder = VariantBuilder::new();
    {
        let mut list = builder.new_list();
        list.append_value(Variant::Int8(1));
        list.append_value(Variant::Int8(2));
        list.append_value(s("test"));
        list.finish();
    }
    let (metadata, value) = builder.finish();
    assert!(!metadata.is_empty());
    assert!(!value.is_empty());
    let list = list_of(decode(&metadata, &value).unwrap());
    assert_eq!(list[0], Variant::Int8(1));
    assert_eq!(list[1], Variant::Int8(2));
    assert_eq!(list[2], Variant::ShortString(ShortString("test".to_string())));
}

#[test]
fn test_object() {
    let mut builder = VariantBuilder::new();
    {
        let mut obj = builder.new_object();
        obj.insert("name", s("John"));
        obj.insert("age", Variant::Int8(42));
        let _ = obj.finish();
    }
    let (metadata, value) = builder.finish();
    assert!(!metadata.is_empty());
    assert!(!value.is_empty());
}

#[test]
fn test_object_field_ordering() {
    let mut builder = VariantBuilder::new();
    {
        let mut obj = builder.new_object();
        obj.insert("zebra", s("stripes"));
        obj.insert("apple", s("red"));
        obj.insert("banana", s("yellow"));
        let _ = obj.finish();
    }
    let (_, value) = builder.finish();
    let header = value[0];
    assert_eq!(header & 0x03, 2);
    let field_count = value[1] as usize;
    assert_eq!(field_count, 3);
    let field_ids: Vec<u8> = value[2..5].to_vec();
    assert_eq!(field_ids, vec![1, 2, 0]);
}

#[test]
fn test_duplicate_fields_in_object() {
    let mut builder = VariantBuilder::new();
    let mut object_builder = builder.new_object();
    object_builder.insert("name", s("Ron Artest"));
    object_builder.insert("name", s("Metta World Peace"));
    let _ = object_builder.finish();
    let (metadata, value) = builder.finish();
    let obj = object_of(decode(&metadata, &value).unwrap());
    assert_eq!(obj.len(), 1);
    assert_eq!(obj[0].1, s("Metta World Peace"));
    assert_eq!(vec![("name".to_string(), s("Metta World Peace"))], obj);
}

#[test]
fn test_nested_list() {
    let mut builder = VariantBuilder::new();
    let mut outer_list_builder = builder.new_list();
    {
        let mut inner_list_builder = outer_list_builder.new_list();
        inner_list_builder.append_value(s("a"));
        inner_list_builder.append_value(s("b"));
        inner_list_builder.append_value(s("c"));
        inner_list_builder.append_value(s("d"));
        inner_list_builder.finish();
    }
    outer_list_builder.finish();
    let (metadata, value) = builder.finish();
    let outer_list = list_of(decode(&metadata, &value).unwrap());
    assert_eq!(outer_list.len(), 1);
    let inner_list = list_of(outer_list.into_iter().next().unwrap());
    assert_eq!(vec![s("a"), s("b"), s("c"), s("d")], inner_list);
}

#[test]
fn test_super_nested_list() {
    let mut builder = VariantBuilder::new();
    {
        let mut list_builder1 = builder.new_list();
        {
            let mut list_builder2 = list_builder1.new_list();
            {
                let mut list_builder3 = list_builder2.new_list();
                {
                    let mut list_builder4 = list_builder3.new_list();
                    {
                        let mut list_builder5 = list_builder4.new_list();
                        list_builder5.append_value(Variant::Int32(1));
                        list_builder5.finish();
                    }
                    list_builder4.finish();
                }
                list_builder3.finish();
            }
            list_builder2.finish();
        }
        list_builder1.finish();
    }
    let (metadata, value) = builder.finish();
    let mut current = decode(&metadata, &value).unwrap();
    for _ in 0..5 {
        let list = list_of(current);
        assert_eq!(list.len(), 1);
        current = list.into_iter().next().unwrap();
    }
    assert_eq!(current, Variant::Int32(1));
}

#[test]
fn test_object_list() {
    let mut builder = VariantBuilder::new();
    let mut list_builder = builder.new_list();
    {
        let mut object_builder = list_builder.new_object();
        object_builder.insert("id", Variant::Int32(1));
        object_builder.insert("type", s("Cauliflower"));
        let _ = object_builder.finish();
    }
    {
        let mut object_builder = list_builder.new_object();
        object_builder.insert("id", Variant::Int32(2));
        object_builder.insert("type", s("Beets"));
        let _ = object_builder.finish();
    }
    list_builder.finish();
    let (metadata, value) = builder.finish();
    let list = list_of(decode(&metadata, &value).unwrap());
    assert_eq!(list.len(), 2);
    let mut it = list.into_iter();
    assert_eq!(
        vec![
            ("id".to_string(), Variant::Int32(1)),
            ("type".to_string(), s("Cauliflower")),
        ],
        object_of(it.next().unwrap())
    );
    assert_eq!(
        vec![("id".to_string(), Variant::Int32(2)), ("type".to_string(), s("Beets"))],
        object_of(it.next().unwrap())
    );
}

#[test]
fn test_object_list2() {
    let mut builder = VariantBuilder::new();
    let mut list_builder = builder.new_list();
    {
        let mut object_builder = list_builder.new_object();
        object_builder.insert("a", Variant::Int32(1));
        let _ = object_builder.finish();
    }
    {
        let mut object_builder = list_builder.new_object();
        object_builder.insert("b", Variant::Int32(2));
        let _ = object_builder.finish();
    }
    list_builder.finish();
    let (metadata, value) = builder.finish();
    let list = list_of(decode(&metadata, &value).unwrap());
    assert_eq!(list.len(), 2);
    let mut it = list.into_iter();
    assert_eq!(vec![("a".to_string(), Variant::Int32(1))], object_of(it.next().unwrap()));
    assert_eq!(vec![("b".to_string(), Variant::Int32(2))], object_of(it.next().unwrap()));
}

#[test]
fn test_hetergenous_list() {
    let mut builder = VariantBuilder::new();
    let mut list_builder = builder.new_list();
    list_builder.append_value(Variant::Int32(1));
    {
        let mut object_builder = list_builder.new_object();
        object_builder.insert("a", Variant::Int32(1));
        let _ = object_builder.finish();
    }
    list_builder.append_value(Variant::Int32(2));
    {
        let mut object_builder = list_builder.new_object();
        object_builder.insert("b", Variant::Int32(2));
        let _ = object_builder.finish();
    }
    list_builder.append_value(Variant::Int32(3));
    list_builder.finish();
    let (metadata, value) = builder.finish();
    let list = list_of(decode(&metadata, &value).unwrap());
    assert_eq!(list.len(), 5);
    let mut it = list.into_iter();
    assert_eq!(it.next().unwrap(), Variant::Int32(1));
    assert_eq!(vec![("a".to_string(), Variant::Int32(1))], object_of(it.next().unwrap()));
    assert_eq!(it.next().unwrap(), Variant::Int32(2));
    assert_eq!(vec![("b".to_string(), Variant::Int32(2))], object_of(it.next().unwrap()));
    assert_eq!(it.next().unwrap(), Variant::Int32(3));
}

#[test]
fn test_nested_object() {
    let mut builder = VariantBuilder::new();
    {
        let mut outer_object_builder = builder.new_object();
        {
            let mut inner_object_builder = outer_object_builder.new_object("c");
            inner_object_builder.insert("b", s("a"));
            let _ = inner_object_builder.finish();
        }
        let _ = outer_object_builder.finish();
    }
    let (metadata, value) = builder.finish();
    let outer_object = object_of(decode(&metadata, &value).unwrap());
    assert_eq!(outer_object.len(), 1);
    assert_eq!(outer_object[0].0, "c");
    let inner_object = object_of(outer_object.into_iter().next().unwrap().1);
    assert_eq!(inner_object.len(), 1);
    assert_eq!(inner_object[0].0, "b");
    assert_eq!(inner_object[0].1, s("a"));
}

#[test]
fn test_nested_object_with_duplicate_field_names_per_object() {
    let mut builder = VariantBuilder::new();
    {
        let mut outer_object_builder = builder.new_object();
        {
            let mut inner_object_builder = outer_object_builder.new_object("c");
            inner_object_builder.insert("b", Variant::from_bool(false));
            inner_object_builder.insert("c", s("a"));
            let _ = inner_object_builder.finish();
        }
        outer_object_builder.insert("b", Variant::from_bool(false));
        let _ = outer_object_builder.finish();
    }
    let (metadata, value) = builder.finish();
    let outer_object = object_of(decode(&metadata, &value).unwrap());
    assert_eq!(outer_object.len(), 2);
    assert_eq!(outer_object[0].0, "b");
    let inner_object = object_of(outer_object.into_iter().nth(1).unwrap().1);
    assert_eq!(inner_object.len(), 2);
    assert_eq!(inner_object[0].0, "b");
    assert_eq!(inner_object[0].1, Variant::from_bool(false));
    assert_eq!(inner_object[1].0, "c");
    assert_eq!(inner_object[1].1, s("a"));
}

#[test]
fn test_nested_object_with_lists() {
    let mut builder = VariantBuilder::new();
    {
        let mut outer_object_builder = builder.new_object();
        {
            let mut inner_object_builder = outer_object_builder.new_object("door 1");
            {
                let mut inner_object_list_builder = inner_object_builder.new_list("items");
                inner_object_list_builder.append_value(s("apple"));
                inner_object_list_builder.append_value(Variant::from_bool(false));
                inner_object_list_builder.finish();
            }
            let _ = inner_object_builder.finish();
        }
        let _ = outer_object_builder.finish();
    }
    let (metadata, value) = builder.finish();
    let outer_object = object_of(decode(&metadata, &value).unwrap());
    assert_eq!(outer_object.len(), 1);
    assert_eq!(outer_object[0].0, "door 1");
    let inner_object = object_of(outer_object.into_iter().next().unwrap().1);
    assert_eq!(inner_object.len(), 1);
    assert_eq!(inner_object[0].0, "items");
    let items_list = list_of(inner_object.into_iter().next().unwrap().1);
    assert_eq!(items_list.len(), 2);
    assert_eq!(items_list[0], s("apple"));
    assert_eq!(items_list[1], Variant::from_bool(false));
}

#[test]
fn test_nested_object_with_heterogeneous_fields() {
    let mut builder = VariantBuilder::new();
    {
        let mut outer_object_builder = builder.new_object();
        outer_object_builder.insert("a", Variant::from_bool(false));
        {
            let mut inner_object_builder = outer_object_builder.new_object("c");
            inner_object_builder.insert("b", s("a"));
            let _ = inner_object_builder.finish();
        }
        outer_object_builder.insert("b", Variant::from_bool(true));
        let _ = outer_object_builder.finish();
    }
    let (metadata, value) = builder.finish();
    let outer_object = object_of(decode(&metadata, &value).unwrap());
    assert_eq!(outer_object.len(), 3);
    assert_eq!(outer_object[0].0, "a");
    assert_eq!(outer_object[0].1, Variant::from_bool(false));
    assert_eq!(outer_object[2].0, "c");
    assert_eq!(outer_object[1].0, "b");
    assert_eq!(outer_object[1].1, Variant::from_bool(true));
    let inner_object = object_of(outer_object.into_iter().nth(2).unwrap().1);
    assert_eq!(inner_object.len(), 1);
    assert_eq!(inner_object[0].0, "b");
    assert_eq!(inner_object[0].1, s("a"));
}

#[test]
fn test_object_without_unique_field_validation() {
    let mut builder = VariantBuilder::new();
    let mut obj = builder.new_object();
    obj.insert("a", Variant::Int32(1));
    obj.insert("a", Variant::Int32(2));
    assert!(obj.finish().is_ok());
    let mut outer_list = builder.new_list();
    let mut inner_list = outer_list.new_list();
    let mut nested_obj = inner_list.new_object();
    nested_obj.insert("x", Variant::Int32(1));
    nested_obj.insert("x", Variant::Int32(2));
    assert!(nested_obj.finish().is_ok());
}

#[test]
fn test_object_with_unique_field_validation() {
    let mut builder = VariantBuilder::new().with_validate_unique_fields(true);
    let mut root_obj = builder.new_object();
    root_obj.insert("a", Variant::Int32(1));
    root_obj.insert("b", Variant::Int32(2));
    root_obj.insert("a", Variant::Int32(3));
    root_obj.insert("b", Variant::Int32(4));
    let result = root_obj.finish();
    assert_eq!(
        result.unwrap_err().message(),
        "Invalid argument error: Duplicate field keys detected: [a, b]"
    );
    let mut outer_list = builder.new_list();
    let mut inner_list = outer_list.new_list();
    let mut nested_obj = inner_list.new_object();
    nested_obj.insert("x", Variant::Int32(1));
    nested_obj.insert("x", Variant::Int32(2));
    let nested_result = nested_obj.finish();
    assert_eq!(
        nested_result.unwrap_err().message(),
        "Invalid argument error: Duplicate field keys detected: [x]"
    );
    inner_list.finish();
    outer_list.finish();
    let mut list = builder.new_list();
    let mut valid_obj = list.new_object();
    valid_obj.insert("m", Variant::Int32(1));
    valid_obj.insert("n", Variant::Int32(2));
    let valid_result = valid_obj.finish();
    assert!(valid_result.is_ok());
}

fn dictionary(builder: &VariantBuilder) -> Vec<String> {
    let md = builder.metadata_builder();
    (0..md.num_field_names()).map(|i| md.field_name(i).to_string()).collect()
}

#[test]
fn test_sorted_dictionary() {
    let mut variant1 = VariantBuilder::new().with_field_names(&["b", "c", "d"]);
    let mut variant2 = {
        let mut builder = VariantBuilder::new();
        builder.add_field_name("b");
        builder.add_field_name("c");
        builder.add_field_name("d");
        builder
    };
    assert_eq!(dictionary(&variant1), dictionary(&variant2));
    assert!(variant1.metadata_builder().is_sorted());
    assert!(variant2.metadata_builder().is_sorted());
    {
        variant2.add_field_name("a");
        assert!(!variant2.metadata_builder().is_sorted());
        let (m, v) = variant2.finish();
        let res = decode(&m, &v);
        assert!(res.is_none());
        let header = read_metadata(&m).unwrap();
        assert!(!header.sorted);
    }
    variant1.append_value(Variant::from_bool(false));
    let (m, v) = variant1.finish();
    let res = decode(&m, &v);
    assert!(res.is_some());
    let header = read_metadata(&m).unwrap();
    assert!(header.sorted);
}

#[test]
fn test_object_sorted_dictionary() {
    let mut variant1 = VariantBuilder::new().with_field_names(&["a", "b", "c"]);
    let mut obj = variant1.new_object();
    obj.insert("c", Variant::from_bool(true));
    obj.insert("a", Variant::from_bool(false));
    obj.insert("b", Variant::Null);
    let field_ids_by_insert_order = obj.field_ids();
    assert_eq!(field_ids_by_insert_order, vec![2, 0, 1]);
    obj.insert("d", Variant::Int32(2));
    obj.finish().unwrap();
    let (metadata, value) = variant1.finish();
    let variant = decode(&metadata, &value).unwrap();
    assert!(read_metadata(&metadata).unwrap().sorted);
    let object = object_of(variant);
    assert_eq!(field_names(&object), vec!["a", "b", "c", "d"]);
}

#[test]
fn test_object_not_sorted_dictionary() {
    let mut variant1 = VariantBuilder::new().with_field_names(&["b", "c", "d"]);
    let mut obj = variant1.new_object();
    obj.insert("c", Variant::from_bool(true));
    obj.insert("d", Variant::from_bool(false));
    obj.insert("b", Variant::Null);
    let field_ids_by_insert_order = obj.field_ids();
    assert_eq!(field_ids_by_insert_order, vec![1, 2, 0]);
    obj.insert("a", Variant::Int32(2));
    obj.finish().unwrap();
    let (metadata, value) = variant1.finish();
    let variant = decode(&metadata, &value).unwrap();
    assert!(!read_metadata(&metadata).unwrap().sorted);
    let object = object_of(variant);
    assert_eq!(field_names(&object), vec!["a", "b", "c", "d"]);
}

#[test]
fn test_building_sorted_dictionary() {
    let mut builder = VariantBuilder::new();
    assert!(!builder.metadata_builder().is_sorted());
    assert_eq!(builder.metadata_builder().num_field_names(), 0);
    builder.add_field_name("a");
    assert!(builder.metadata_builder().is_sorted());
    assert_eq!(builder.metadata_builder().num_field_names(), 1);
    let builder = builder.with_field_names(&["b", "c", "d"]);
    assert!(builder.metadata_builder().is_sorted());
    assert_eq!(builder.metadata_builder().num_field_names(), 4);
    let builder = builder.with_field_names(&["z", "y"]);
    assert!(!builder.metadata_builder().is_sorted());
    assert_eq!(builder.metadata_builder().num_field_names(), 6);
}

#[test]
fn test_metadata_builder_from_iter() {
    let metadata = MetadataBuilder::from_names(&["apple", "banana", "cherry"]);
    assert_eq!(metadata.num_field_names(), 3);
    assert_eq!(metadata.field_name(0), "apple");
    assert_eq!(metadata.field_name(1), "banana");
    assert_eq!(metadata.field_name(2), "cherry");
    assert!(metadata.is_sorted());
    let metadata = MetadataBuilder::from_names(&["zebra", "apple", "banana"]);
    assert_eq!(metadata.num_field_names(), 3);
    assert_eq!(metadata.field_name(0), "zebra");
    assert_eq!(metadata.field_name(1), "apple");
    assert_eq!(metadata.field_name(2), "banana");
    assert!(!metadata.is_sorted());
    let metadata = MetadataBuilder::from_names(&[]);
    assert_eq!(metadata.num_field_names(), 0);
    assert!(!metadata.is_sorted());
}

#[test]
fn test_metadata_builder_extend() {
    let mut metadata = MetadataBuilder::new();
    assert_eq!(metadata.num_field_names(), 0);
    assert!(!metadata.is_sorted());
    metadata.extend(&["apple", "cherry"]);
    assert_eq!(metadata.num_field_names(), 2);
    assert_eq!(metadata.field_name(0), "apple");
    assert_eq!(metadata.field_name(1), "cherry");
    assert!(metadata.is_sorted());
    metadata.extend(&["dinosaur", "monkey"]);
    assert_eq!(metadata.num_field_names(), 4);
    assert_eq!(metadata.field_name(2), "dinosaur");
    assert_eq!(metadata.field_name(3), "monkey");
    assert!(metadata.is_sorted());
    let initial_count = metadata.num_field_names();
    metadata.extend(&["apple", "monkey"]);
    assert_eq!(metadata.num_field_names(), initial_count);
}

#[test]
fn test_metadata_builder_extend_sort_order() {
    let mut metadata = MetadataBuilder::new();
    metadata.extend(&["middle"]);
    assert!(metadata.is_sorted());
    metadata.extend(&["zebra"]);
    assert!(metadata.is_sorted());
    metadata.extend(&["apple"]);
    assert!(!metadata.is_sorted());
}

#[test]
fn test_metadata_builder_from_iter_with_string_types() {
    let metadata = MetadataBuilder::from_names(&["a", "b", "c"]);
    assert_eq!(metadata.num_field_names(), 3);
    let owned = vec!["a".to_string(), "b".to_string(), "c".to_string()];
    let borrowed: Vec<&str> = owned.iter().map(|x| x.as_str()).collect();
    let metadata = MetadataBuilder::from_names(&borrowed);
    assert_eq!(metadata.num_field_names(), 3);
    let boxed: Vec<Box<str>> = vec!["a".into(), "b".into(), "c".into()];
    let borrowed: Vec<&str> = boxed.iter().map(|x| x.as_ref()).collect();
    let metadata = MetadataBuilder::from_names(&borrowed);
    assert_eq!(metadata.num_field_names(), 3);
}

fn append_test_list(builder: &mut VariantBuilder) {
    let mut list = builder.new_list();
    list.append_value(Variant::Int32(1234));
    list.append_value(s("a string value"));
    list.finish();
}

fn append_test_object(builder: &mut VariantBuilder) {
    let mut obj = builder.new_object();
    obj.insert("a", Variant::from_bool(true));
    obj.finish().unwrap();
}

#[test]
fn test_with_existing_buffers_nested() {
    let mut builder = VariantBuilder::new();
    append_test_list(&mut builder);
    let (m1, v1) = builder.finish();
    let variant1 = decode(&m1, &v1).unwrap();

    let mut builder = VariantBuilder::new();
    append_test_object(&mut builder);
    let (m2, v2) = builder.finish();
    let variant2 = decode(&m2, &v2).unwrap();

    let mut builder = VariantBuilder::new();
    builder.append_value(s("This is a string"));
    let (m3, v3) = builder.finish();
    let variant3 = decode(&m3, &v3).unwrap();

    let mut builder = VariantBuilder::new();
    append_test_list(&mut builder);
    let (metadata, value) = builder.finish();
    let (meta1_offset, meta1_end) = (0, metadata.len());
    let (value1_offset, value1_end) = (0, value.len());

    let mut builder = VariantBuilder::new_with_buffers(metadata, value);
    append_test_object(&mut builder);
    let (metadata, value) = builder.finish();
    let (meta2_offset, meta2_end) = (meta1_end, metadata.len());
    let (value2_offset, value2_end) = (value1_end, value.len());

    let mut builder = VariantBuilder::new_with_buffers(metadata, value);
    builder.append_value(s("This is a string"));
    let (metadata, value) = builder.finish();
    let (meta3_offset, meta3_end) = (meta2_end, metadata.len());
    let (value3_offset, value3_end) = (value2_end, value.len());

    let roundtrip1 = decode(
        &metadata[meta1_offset..meta1_end],
        &value[value1_offset..value1_end],
    )
    .unwrap();
    assert_eq!(roundtrip1, variant1);
    let roundtrip2 = decode(
        &metadata[meta2_offset..meta2_end],
        &value[value2_offset..value2_end],
    )
    .unwrap();
    assert_eq!(roundtrip2, variant2);
    let roundtrip3 = decode(
        &metadata[meta3_offset..meta3_end],
        &value[value3_offset..value3_end],
    )
    .unwrap();
    assert_eq!(roundtrip3, variant3);
}

#[test]
fn test_variant_builder_to_list_builder_no_finish() {
    let mut builder = VariantBuilder::new();
    let mut list_builder = builder.new_list();
    list_builder.append_value(s("hi"));
    drop(list_builder);
    builder.append_value(Variant::Int8(42));
    let (metadata, value) = builder.finish();
    assert!(names_of(&metadata).is_empty());
    assert_eq!(decode(&metadata, &value).unwrap(), Variant::Int8(42));
}

#[test]
fn test_variant_builder_to_object_builder_no_finish() {
    let mut builder = VariantBuilder::new();
    let mut object_builder = builder.new_object();
    object_builder.insert("name", s("unknown"));
    drop(object_builder);
    builder.append_value(Variant::Int8(42));
    let (metadata, value) = builder.finish();
    let names = names_of(&metadata);
    assert_eq!(names.len(), 1);
    assert_eq!(&names[0], "name");
    assert_eq!(decode(&metadata, &value).unwrap(), Variant::Int8(42));
}

#[test]
fn test_list_builder_to_list_builder_inner_no_finish() {
    let mut builder = VariantBuilder::new();
    let mut list_builder = builder.new_list();
    list_builder.append_value(Variant::Int8(1));
    let mut nested_list_builder = list_builder.new_list();
    nested_list_builder.append_value(s("hi"));
    drop(nested_list_builder);
    list_builder.append_value(Variant::Int8(2));
    list_builder.finish();
    let (metadata, value) = builder.finish();
    assert!(names_of(&metadata).is_empty());
    let list = list_of(decode(&metadata, &value).unwrap());
    assert_eq!(list.len(), 2);
    assert_eq!(list[0], Variant::Int8(1));
    assert_eq!(list[1], Variant::Int8(2));
}

#[test]
fn test_list_builder_to_list_builder_outer_no_finish() {
    let mut builder = VariantBuilder::new();
    let mut list_builder = builder.new_list();
    list_builder.append_value(Variant::Int8(1));
    let mut nested_list_builder = list_builder.new_list();
    nested_list_builder.append_value(s("hi"));
    nested_list_builder.finish();
    drop(list_builder);
    builder.append_value(Variant::Int8(2));
    let (metadata, value) = builder.finish();
    assert!(names_of(&metadata).is_empty());
    assert_eq!(decode(&metadata, &value).unwrap(), Variant::Int8(2));
}

#[test]
fn test_list_builder_to_object_builder_inner_no_finish() {
    let mut builder = VariantBuilder::new();
    let mut list_builder = builder.new_list();
    list_builder.append_value(Variant::Int8(1));
    let mut nested_object_builder = list_builder.new_object();
    nested_object_builder.insert("name", s("unknown"));
    drop(nested_object_builder);
    list_builder.append_value(Variant::Int8(2));
    list_builder.finish();
    let (metadata, value) = builder.finish();
    let names = names_of(&metadata);
    assert_eq!(names.len(), 1);
    assert_eq!(&names[0], "name");
    let list = list_of(decode(&metadata, &value).unwrap());
    assert_eq!(list.len(), 2);
    assert_eq!(list[0], Variant::Int8(1));
    assert_eq!(list[1], Variant::Int8(2));
}

#[test]
fn test_list_builder_to_object_builder_outer_no_finish() {
    let mut builder = VariantBuilder::new();
    let mut list_builder = builder.new_list();
    list_builder.append_value(Variant::Int8(1));
    let mut nested_object_builder = list_builder.new_object();
    nested_object_builder.insert("name", s("unknown"));
    nested_object_builder.finish().unwrap();
    drop(list_builder);
    builder.append_value(Variant::Int8(2));
    let (metadata, value) = builder.finish();
    let names = names_of(&metadata);
    assert_eq!(names.len(), 1);
    assert_eq!(&names[0], "name");
    assert_eq!(decode(&metadata, &value).unwrap(), Variant::Int8(2));
}

#[test]
fn test_object_builder_to_list_builder_inner_no_finish() {
    let mut builder = VariantBuilder::new();
    let mut object_builder = builder.new_object();
    object_builder.insert("first", Variant::Int8(1));
    let mut nested_list_builder = object_builder.new_list("nested");
    nested_list_builder.append_value(s("hi"));
    drop(nested_list_builder);
    object_builder.insert("second", Variant::Int8(2));
    object_builder.finish().unwrap();
    let (metadata, value) = builder.finish();
    let names = names_of(&metadata);
    assert_eq!(names.len(), 2);
    assert_eq!(&names[0], "first");
    assert_eq!(&names[1], "second");
    let obj = object_of(decode(&metadata, &value).unwrap());
    assert_eq!(obj.len(), 2);
    assert_eq!(get(&obj, "first"), Some(&Variant::Int8(1)));
    assert_eq!(get(&obj, "second"), Some(&Variant::Int8(2)));
}

#[test]
fn test_object_builder_to_list_builder_outer_no_finish() {
    let mut builder = VariantBuilder::new();
    let mut object_builder = builder.new_object();
    object_builder.insert("first", Variant::Int8(1));
    let mut nested_list_builder = object_builder.new_list("nested");
    nested_list_builder.append_value(s("hi"));
    nested_list_builder.finish();
    drop(object_builder);
    builder.append_value(Variant::Int8(2));
    let (metadata, value) = builder.finish();
    let names = names_of(&metadata);
    assert_eq!(names.len(), 2);
    assert_eq!(&names[0], "first");
    assert_eq!(&names[1], "nested");
    assert_eq!(decode(&metadata, &value).unwrap(), Variant::Int8(2));
}

#[test]
fn test_object_builder_to_object_builder_inner_no_finish() {
    let mut builder = VariantBuilder::new();
    let mut object_builder = builder.new_object();
    object_builder.insert("first", Variant::Int8(1));
    let mut nested_object_builder = object_builder.new_object("nested");
    nested_object_builder.insert("name", s("unknown"));
    drop(nested_object_builder);
    object_builder.insert("second", Variant::Int8(2));
    object_builder.finish().unwrap();
    let (metadata, value) = builder.finish();
    let names = names_of(&metadata);
    assert_eq!(names.len(), 3);
    assert_eq!(&names[0], "first");
    assert_eq!(&names[1], "name");
    assert_eq!(&names[2], "second");
    let obj = object_of(decode(&metadata, &value).unwrap());
    assert_eq!(obj.len(), 2);
    assert_eq!(get(&obj, "first"), Some(&Variant::Int8(1)));
    assert_eq!(get(&obj, "second"), Some(&Variant::Int8(2)));
}

#[test]
fn test_object_builder_to_object_builder_outer_no_finish() {
    let mut builder = VariantBuilder::new();
    let mut object_builder = builder.new_object();
    object_builder.insert("first", Variant::Int8(1));
    let mut nested_object_builder = object_builder.new_object("nested");
    nested_object_builder.insert("name", s("unknown"));
    nested_object_builder.finish().unwrap();
    drop(object_builder);
    builder.append_value(Variant::Int8(2));
    let (metadata, value) = builder.finish();
    let names = names_of(&metadata);
    assert_eq!(names.len(), 3);
    assert_eq!(&names[0], "first");
    assert_eq!(&names[1], "name");
    assert_eq!(&names[2], "nested");
    assert_eq!(decode(&metadata, &value).unwrap(), Variant::Int8(2));
}

fn make_object() -> (Vec<u8>, Vec<u8>) {
    let mut builder = VariantBuilder::new();
    let mut obj = builder.new_object();
    obj.insert("b", Variant::from_bool(true));
    obj.insert("a", Variant::from_bool(false));
    obj.finish().unwrap();
    builder.finish()
}

fn seeded_builder(m1: &[u8]) -> VariantBuilder {
    let names = names_of(m1);
    let refs: Vec<&str> = names.iter().map(|x| x.as_str()).collect();
    VariantBuilder::new().with_metadata(&refs)
}

#[test]
fn test_append_object() {
    let (m1, v1) = make_object();
    let variant = decode(&m1, &v1).unwrap();
    let mut builder = seeded_builder(&m1);
    builder.append_value(decode(&m1, &v1).unwrap());
    let (metadata, value) = builder.finish();
    assert_eq!(variant, decode(&metadata, &value).unwrap());
}

fn make_nested_object() -> (Vec<u8>, Vec<u8>) {
    let mut builder = VariantBuilder::new();
    {
        let mut outer_obj = builder.new_object();
        {
            let mut inner_obj = outer_obj.new_object("b");
            inner_obj.insert("a", s("inner_value"));
            inner_obj.finish().unwrap();
        }
        outer_obj.finish().unwrap();
    }
    builder.finish()
}

#[test]
fn test_append_nested_object() {
    let (m1, v1) = make_nested_object();
    let variant = decode(&m1, &v1).unwrap();
    let mut builder = seeded_builder(&m1);
    builder.append_value(decode(&m1, &v1).unwrap());
    let (metadata, value) = builder.finish();
    let result_variant = decode(&metadata, &value).unwrap();
    assert_eq!(variant, result_variant);
}

fn make_list() -> (Vec<u8>, Vec<u8>) {
    let mut builder = VariantBuilder::new();
    let mut list = builder.new_list();
    list.append_value(Variant::Int32(1234));
    list.append_value(s("a string value"));
    list.finish();
    builder.finish()
}

#[test]
fn test_append_list() {
    let (m1, v1) = make_list();
    let variant = decode(&m1, &v1).unwrap();
    let mut builder = VariantBuilder::new();
    builder.append_value(decode(&m1, &v1).unwrap());
    let (metadata, value) = builder.finish();
    assert_eq!(variant, decode(&metadata, &value).unwrap());
}

fn make_nested_list() -> (Vec<u8>, Vec<u8>) {
    let mut builder = VariantBuilder::new();
    let mut list = builder.new_list();
    let mut inner_list = list.new_list();
    inner_list.append_value(s("the dog licked the oil"));
    inner_list.append_value(Variant::Double(4.3f64.to_bits()));
    inner_list.finish();
    list.finish();
    builder.finish()
}

#[test]
fn test_append_nested_list() {
    let (m1, v1) = make_nested_list();
    let variant = decode(&m1, &v1).unwrap();
    let mut builder = VariantBuilder::new();
    builder.append_value(decode(&m1, &v1).unwrap());
    let (metadata, value) = builder.finish();
    assert_eq!(variant, decode(&metadata, &value).unwrap());
}
